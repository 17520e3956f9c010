//! The wire protocol: tagged-union messages between client and server, a
//! hand-written binary codec, and the length-prefixed framing.
//!
//! Every serializer has an exact byte-level specification (`ser_*`), and
//! the decoder is proved sound and complete against it: it returns a
//! message exactly when some message's serialization starts the input, and
//! whatever it returns serializes back to the bytes it consumed.  Numbers
//! travel big-endian; strings as a character count followed by one 32-bit
//! code point per character.

use vstd::prelude::*;

use crate::editor::{Editor, EditorEvent, EditorInfo, IoRequest, KeyAction, RenderData};
use crate::input::{EditorKey, KeyCode, KeyModifiers};
use crate::position::Position;
use crate::textspec::{col_of, line_count, line_idx};

verus! {

/// `256^n`.
pub open spec fn pow256(n: nat) -> nat
    decreases n,
{
    if n == 0 {
        1
    } else {
        256 * pow256((n - 1) as nat)
    }
}

/// `v` as `n` big-endian base-256 digits (modulo `256^n`).
pub open spec fn ser_unat(v: nat, n: nat) -> Seq<u8>
    decreases n,
{
    if n == 0 {
        Seq::empty()
    } else {
        ser_unat(v / 256, (n - 1) as nat) + seq![(v % 256) as u8]
    }
}

/// The number big-endian bytes spell.
pub open spec fn be_value(s: Seq<u8>) -> nat
    decreases s.len(),
{
    if s.len() == 0 {
        0
    } else {
        be_value(s.drop_last()) * 256 + s.last() as nat
    }
}

pub proof fn lemma_ser_unat_len(v: nat, n: nat)
    ensures
        ser_unat(v, n).len() == n,
    decreases n,
{
    if n > 0 {
        lemma_ser_unat_len(v / 256, (n - 1) as nat);
    }
}

/// Serializing then reading back returns the value, for values in range.
pub proof fn lemma_be_ser(v: nat, n: nat)
    requires
        v < pow256(n),
    ensures
        be_value(ser_unat(v, n)) == v,
    decreases n,
{
    if n > 0 {
        lemma_ser_unat_len(v / 256, (n - 1) as nat);
        assert((ser_unat(v / 256, (n - 1) as nat) + seq![(v % 256) as u8]).drop_last()
            =~= ser_unat(v / 256, (n - 1) as nat));
        assert(v / 256 < pow256((n - 1) as nat)) by {
            assert(pow256(n) == 256 * pow256((n - 1) as nat));
        }
        lemma_be_ser(v / 256, (n - 1) as nat);
    }
}

/// Reading bytes then serializing the value returns the bytes, and the
/// value is in range.
pub proof fn lemma_ser_be(s: Seq<u8>)
    ensures
        be_value(s) < pow256(s.len()),
        ser_unat(be_value(s), s.len()) == s,
    decreases s.len(),
{
    if s.len() > 0 {
        lemma_ser_be(s.drop_last());
        let v = be_value(s);
        assert(v == be_value(s.drop_last()) * 256 + s.last());
        assert(v / 256 == be_value(s.drop_last()) && v % 256 == s.last()) by {
            assert(s.last() < 256);
        }
        assert(pow256(s.len()) == 256 * pow256((s.len() - 1) as nat));
        assert(ser_unat(v, s.len()) == ser_unat(v / 256, (s.len() - 1) as nat) + seq![
            (v % 256) as u8,
        ]);
        assert(ser_unat(v / 256, (s.len() - 1) as nat) == s.drop_last());
        assert(s.drop_last() + seq![s.last()] =~= s);
    }
}

/// Two values with the same serialization are the same value.
pub proof fn lemma_ser_unat_injective(v1: nat, v2: nat, n: nat)
    requires
        v1 < pow256(n),
        v2 < pow256(n),
        ser_unat(v1, n) == ser_unat(v2, n),
    ensures
        v1 == v2,
{
    lemma_be_ser(v1, n);
    lemma_be_ser(v2, n);
}

/// Some serialization `s` begins at offset `pos` of `b`.
pub open spec fn is_at(b: Seq<u8>, pos: int, s: Seq<u8>) -> bool {
    &&& 0 <= pos
    &&& pos + s.len() <= b.len()
    &&& b.subrange(pos, pos + s.len()) == s
}

/// A concatenation sits at `pos` exactly when its parts sit back to back.
pub proof fn lemma_is_at_concat(b: Seq<u8>, pos: int, s: Seq<u8>, t: Seq<u8>)
    ensures
        is_at(b, pos, s + t) <==> (is_at(b, pos, s) && is_at(b, pos + s.len(), t)),
{
    if is_at(b, pos, s + t) {
        assert(b.subrange(pos, pos + s.len() + t.len()) == s + t);
        assert(b.subrange(pos, pos + s.len()) =~= s);
        assert forall|j: int| 0 <= j < t.len() implies b.subrange(
            pos + s.len(),
            pos + s.len() + t.len(),
        )[j] == t[j] by {
            assert((s + t)[s.len() + j] == t[j]);
            assert(b.subrange(pos, pos + s.len() + t.len())[s.len() + j] == b[pos + s.len() + j]);
        }
        assert(b.subrange(pos + s.len(), pos + s.len() + t.len()) =~= t);
    }
    if is_at(b, pos, s) && is_at(b, pos + s.len(), t) {
        assert(b.subrange(pos, pos + s.len() + t.len()) =~= s + t);
    }
}

/// Two serializations of the same length at the same offset are the same
/// bytes.
pub proof fn lemma_psf_fixed(b: Seq<u8>, pos: int, s: Seq<u8>, t: Seq<u8>)
    requires
        s.len() == t.len(),
        is_at(b, pos, s),
        is_at(b, pos, t),
    ensures
        s == t,
{
}

/// Append `n` big-endian bytes of `v`.
fn enc_unat(out: &mut Vec<u8>, v: u64, n: usize)
    ensures
        final(out)@ == old(out)@ + ser_unat(v as nat, n as nat),
    decreases n,
{
    if n == 0 {
        proof {
            assert(old(out)@ + ser_unat(v as nat, 0) =~= old(out)@);
        }
    } else {
        enc_unat(out, v / 256, n - 1);
        out.push((v % 256) as u8);
        proof {
            assert((old(out)@ + ser_unat((v / 256) as nat, (n - 1) as nat)) + seq![
                (v % 256) as u8,
            ] =~= old(out)@ + ser_unat(v as nat, n as nat));
        }
    }
}

/// Read `n <= 8` big-endian bytes from offset `pos`, when they are there.
fn dec_unat(b: &[u8], pos: usize, n: usize) -> (r: Option<(u64, usize)>)
    requires
        n <= 8,
    ensures
        match r {
            Some(v) => {
                &&& v.1 == pos + n
                &&& pos + n <= b@.len()
                &&& ser_unat(v.0 as nat, n as nat) == b@.subrange(pos as int, pos + n)
                &&& (v.0 as nat) < pow256(n as nat)
            },
            None => pos + n > b@.len(),
        },
{
    if b.len() < n || pos > b.len() - n {
        return None;
    }
    proof {
        reveal_with_fuel(pow256, 10);
    }
    let mut acc: u64 = 0;
    let mut k: usize = 0;
    while k < n
        invariant
            0 <= k <= n <= 8,
            pos + n <= b@.len(),
            b@.len() <= usize::MAX,
            acc as nat == be_value(b@.subrange(pos as int, pos + k)),
            (acc as nat) < pow256(k as nat),
        decreases n - k,
    {
        proof {
            reveal_with_fuel(pow256, 10);
            assert(pow256(k as nat) <= pow256(7)) by {
                lemma_pow256_monotonic(k as nat, 7);
            }
            assert(b@.subrange(pos as int, pos + k + 1).drop_last() =~= b@.subrange(
                pos as int,
                pos + k,
            ));
        }
        acc = acc * 256 + (b[pos + k] as u64);
        k = k + 1;
    }
    proof {
        lemma_ser_be(b@.subrange(pos as int, pos + n));
    }
    Some((acc, pos + n))
}

proof fn lemma_pow256_monotonic(a: nat, c: nat)
    requires
        a <= c,
    ensures
        pow256(a) <= pow256(c),
    decreases c,
{
    if a < c {
        lemma_pow256_monotonic(a, (c - 1) as nat);
        assert(pow256(c) == 256 * pow256((c - 1) as nat));
    }
}

/// Relies on `char::from_u32`: `Some` exactly for valid Unicode scalar
/// values, and the returned character has the given code point.
#[verifier::external_body]
fn char_from_u32(u: u32) -> (c: Option<char>)
    ensures
        c matches Some(ch) ==> ch as u32 == u,
        c is Some <==> vstd::utf8::is_scalar(u),
{
    char::from_u32(u)
}

/// A message between client and server.
#[derive(Debug)]
pub enum Message {
    /// Client to server: a key press to apply.
    KeyPress { key: EditorKey },
    /// Client to server: a handshake asking for a full state snapshot.
    ClientStart,
    /// Client to server: a liveness probe.
    ServerStatusCheck,
    /// Server to client: the liveness answer.
    ServerStatusOk,
    /// Server to client: events plus the fresh render and info snapshots.
    StateUpdate { events: Vec<EditorEvent>, render_data: RenderData, info: EditorInfo },
}

/// Why a payload failed to decode.
#[derive(Debug, Clone, Copy, PartialEq, Eq)]
pub enum DecodeError {
    /// No message's serialization starts these bytes.
    Malformed,
}

/// Why a message could not be framed.
#[derive(Debug, Clone, Copy, PartialEq, Eq)]
pub enum EncodeError {
    /// The serialized message does not fit a 32-bit length prefix.
    TooLarge,
}

pub open spec fn ser_char(c: char) -> Seq<u8> {
    ser_unat((c as u32) as nat, 4)
}

pub open spec fn ser_chars(s: Seq<char>) -> Seq<u8>
    decreases s.len(),
{
    if s.len() == 0 {
        Seq::empty()
    } else {
        ser_char(s[0]) + ser_chars(s.skip(1))
    }
}

pub open spec fn ser_string(s: Seq<char>) -> Seq<u8> {
    ser_unat(s.len(), 8) + ser_chars(s)
}

pub open spec fn ser_opt_string(o: Option<Seq<char>>) -> Seq<u8> {
    match o {
        None => seq![0u8],
        Some(s) => seq![1u8] + ser_string(s),
    }
}

pub open spec fn ser_bool(v: bool) -> Seq<u8> {
    if v {
        seq![1u8]
    } else {
        seq![0u8]
    }
}

pub open spec fn ser_position(p: Position) -> Seq<u8> {
    ser_unat(p.line as nat, 8) + ser_unat(p.column as nat, 8)
}

/// The modifier set as one byte of flags.
pub open spec fn mods_byte(m: KeyModifiers) -> u8 {
    ((if m.ctrl {
        1int
    } else {
        0int
    }) + (if m.alt {
        2int
    } else {
        0int
    }) + (if m.shift {
        4int
    } else {
        0int
    }) + (if m.meta {
        8int
    } else {
        0int
    })) as u8
}

pub open spec fn ser_keycode(c: KeyCode) -> Seq<u8> {
    match c {
        KeyCode::Char(ch) => seq![0u8] + ser_char(ch),
        KeyCode::Backspace => seq![1u8],
        KeyCode::Enter => seq![2u8],
        KeyCode::Left => seq![3u8],
        KeyCode::Right => seq![4u8],
        KeyCode::Up => seq![5u8],
        KeyCode::Down => seq![6u8],
        KeyCode::Home => seq![7u8],
        KeyCode::End => seq![8u8],
        KeyCode::PageUp => seq![9u8],
        KeyCode::PageDown => seq![10u8],
        KeyCode::Tab => seq![11u8],
        KeyCode::Delete => seq![12u8],
        KeyCode::Escape => seq![13u8],
        KeyCode::F(n) => seq![14u8, n],
    }
}

pub open spec fn ser_key(k: EditorKey) -> Seq<u8> {
    ser_keycode(k.code) + seq![mods_byte(k.modifiers)]
}

pub open spec fn ser_event(e: EditorEvent) -> Seq<u8> {
    match e {
        EditorEvent::Shutdown => seq![0u8],
        EditorEvent::Redraw => seq![1u8],
        EditorEvent::Error(m) => seq![2u8] + ser_string(m@),
        EditorEvent::Info(m) => seq![3u8] + ser_string(m@),
    }
}

pub open spec fn ser_events_elems(es: Seq<EditorEvent>) -> Seq<u8>
    decreases es.len(),
{
    if es.len() == 0 {
        Seq::empty()
    } else {
        ser_event(es[0]) + ser_events_elems(es.skip(1))
    }
}

pub open spec fn ser_events(es: Seq<EditorEvent>) -> Seq<u8> {
    ser_unat(es.len(), 8) + ser_events_elems(es)
}

pub open spec fn ser_lines_elems(ls: Seq<String>) -> Seq<u8>
    decreases ls.len(),
{
    if ls.len() == 0 {
        Seq::empty()
    } else {
        ser_string(ls[0]@) + ser_lines_elems(ls.skip(1))
    }
}

pub open spec fn ser_lines(ls: Seq<String>) -> Seq<u8> {
    ser_unat(ls.len(), 8) + ser_lines_elems(ls)
}

pub open spec fn ser_render(r: RenderData) -> Seq<u8> {
    ser_lines(r.lines@) + ser_position(r.cursor) + ser_unat(r.viewport_start as nat, 8)
        + ser_unat(r.viewport_height as nat, 8)
}

pub open spec fn ser_info(i: EditorInfo) -> Seq<u8> {
    ser_position(i.cursor) + ser_opt_string(i.filepath.deep_view()) + ser_opt_string(
        i.name.deep_view(),
    ) + ser_bool(i.modified) + ser_unat(i.line_count as nat, 8) + ser_unat(i.char_count as nat, 8)
}

/// The serialization of a whole message: a tag byte and the variant's
/// payload.
pub open spec fn ser_message(m: Message) -> Seq<u8> {
    match m {
        Message::KeyPress { key } => seq![0u8] + ser_key(key),
        Message::ClientStart => seq![1u8],
        Message::ServerStatusCheck => seq![2u8],
        Message::ServerStatusOk => seq![3u8],
        Message::StateUpdate { events, render_data, info } => seq![4u8] + ser_events(events@)
            + ser_render(render_data) + ser_info(info),
    }
}

proof fn lemma_ser_chars_snoc(t: Seq<char>, x: char)
    ensures
        ser_chars(t.push(x)) == ser_chars(t) + ser_char(x),
    decreases t.len(),
{
    if t.len() == 0 {
        assert(t.push(x)[0] == x);
        assert(t.push(x).skip(1) =~= Seq::<char>::empty());
        assert(ser_chars(Seq::<char>::empty()) == Seq::<u8>::empty());
        assert(ser_chars(t) + ser_char(x) =~= ser_char(x) + Seq::<u8>::empty());
    } else {
        assert(t.push(x)[0] == t[0]);
        assert(t.push(x).skip(1) =~= t.skip(1).push(x));
        lemma_ser_chars_snoc(t.skip(1), x);
        assert((ser_char(t[0]) + ser_chars(t.skip(1))) + ser_char(x) =~= ser_char(t[0]) + (
        ser_chars(t.skip(1)) + ser_char(x)));
    }
}

proof fn lemma_ser_events_snoc(t: Seq<EditorEvent>, x: EditorEvent)
    ensures
        ser_events_elems(t.push(x)) == ser_events_elems(t) + ser_event(x),
    decreases t.len(),
{
    if t.len() == 0 {
        assert(t.push(x)[0] == x);
        assert(t.push(x).skip(1) =~= Seq::<EditorEvent>::empty());
        assert(ser_events_elems(Seq::<EditorEvent>::empty()) == Seq::<u8>::empty());
        assert(ser_events_elems(t) + ser_event(x) =~= ser_event(x) + Seq::<u8>::empty());
    } else {
        assert(t.push(x)[0] == t[0]);
        assert(t.push(x).skip(1) =~= t.skip(1).push(x));
        lemma_ser_events_snoc(t.skip(1), x);
        assert((ser_event(t[0]) + ser_events_elems(t.skip(1))) + ser_event(x) =~= ser_event(t[0])
            + (ser_events_elems(t.skip(1)) + ser_event(x)));
    }
}

proof fn lemma_ser_lines_snoc(t: Seq<String>, x: String)
    ensures
        ser_lines_elems(t.push(x)) == ser_lines_elems(t) + ser_string(x@),
    decreases t.len(),
{
    if t.len() == 0 {
        assert(t.push(x)[0] == x);
        assert(t.push(x).skip(1) =~= Seq::<String>::empty());
        assert(ser_lines_elems(Seq::<String>::empty()) == Seq::<u8>::empty());
        assert(ser_lines_elems(t) + ser_string(x@) =~= ser_string(x@) + Seq::<u8>::empty());
    } else {
        assert(t.push(x)[0] == t[0]);
        assert(t.push(x).skip(1) =~= t.skip(1).push(x));
        lemma_ser_lines_snoc(t.skip(1), x);
        assert((ser_string(t[0]@) + ser_lines_elems(t.skip(1))) + ser_string(x@) =~= ser_string(
            t[0]@,
        ) + (ser_lines_elems(t.skip(1)) + ser_string(x@)));
    }
}

fn enc_char(out: &mut Vec<u8>, c: char)
    ensures
        final(out)@ == old(out)@ + ser_char(c),
{
    enc_unat(out, (c as u32) as u64, 4);
}

fn enc_string(out: &mut Vec<u8>, s: &str)
    ensures
        final(out)@ == old(out)@ + ser_string(s@),
{
    let n = vstd::string::StrSliceExecFns::unicode_len(s);
    enc_unat(out, n as u64, 8);
    let mut i: usize = 0;
    proof {
        assert(ser_chars(s@.take(0)) =~= Seq::<u8>::empty());
        assert(old(out)@ + ser_unat(n as nat, 8) + Seq::<u8>::empty() =~= old(out)@ + ser_unat(
            n as nat,
            8,
        ));
    }
    while i < n
        invariant
            0 <= i <= n,
            n == s@.len(),
            out@ == old(out)@ + ser_unat(n as nat, 8) + ser_chars(s@.take(i as int)),
        decreases n - i,
    {
        let c = vstd::string::StrSliceExecFns::get_char(s, i);
        enc_char(out, c);
        proof {
            assert(s@.take(i + 1) =~= s@.take(i as int).push(s@[i as int]));
            lemma_ser_chars_snoc(s@.take(i as int), s@[i as int]);
            assert(old(out)@ + ser_unat(n as nat, 8) + ser_chars(s@.take(i as int)) + ser_char(
                s@[i as int],
            ) =~= old(out)@ + ser_unat(n as nat, 8) + ser_chars(s@.take(i + 1)));
        }
        i = i + 1;
    }
    proof {
        assert(s@.take(n as int) =~= s@);
        assert(old(out)@ + ser_unat(n as nat, 8) + ser_chars(s@) =~= old(out)@ + ser_string(s@));
    }
}

fn enc_opt_string(out: &mut Vec<u8>, o: &Option<String>)
    ensures
        final(out)@ == old(out)@ + ser_opt_string(o.deep_view()),
{
    match o {
        None => {
            out.push(0u8);
            proof {
                assert(old(out)@ + seq![0u8] =~= old(out)@ + ser_opt_string(o.deep_view()));
            }
        },
        Some(s) => {
            out.push(1u8);
            enc_string(out, s.as_str());
            proof {
                assert(old(out)@ + seq![1u8] + ser_string(s@) =~= old(out)@ + ser_opt_string(
                    o.deep_view(),
                ));
            }
        },
    }
}

fn enc_bool(out: &mut Vec<u8>, v: bool)
    ensures
        final(out)@ == old(out)@ + ser_bool(v),
{
    out.push(
        if v {
            1u8
        } else {
            0u8
        },
    );
    proof {
        assert(old(out)@ + seq![
            (if v {
                1u8
            } else {
                0u8
            }),
        ] =~= old(out)@ + ser_bool(v));
    }
}

fn enc_position(out: &mut Vec<u8>, p: &Position)
    ensures
        final(out)@ == old(out)@ + ser_position(*p),
{
    enc_unat(out, p.line as u64, 8);
    enc_unat(out, p.column as u64, 8);
    proof {
        assert(old(out)@ + ser_unat(p.line as nat, 8) + ser_unat(p.column as nat, 8) =~= old(
            out,
        )@ + ser_position(*p));
    }
}

fn enc_keycode(out: &mut Vec<u8>, c: &KeyCode)
    ensures
        final(out)@ == old(out)@ + ser_keycode(*c),
{
    match c {
        KeyCode::Char(ch) => {
            out.push(0u8);
            enc_char(out, *ch);
            proof {
                assert(old(out)@ + seq![0u8] + ser_char(*ch) =~= old(out)@ + ser_keycode(*c));
            }
        },
        KeyCode::Backspace => {
            out.push(1u8);
            proof {
                assert(old(out)@ + seq![1u8] =~= old(out)@ + ser_keycode(*c));
            }
        },
        KeyCode::Enter => {
            out.push(2u8);
            proof {
                assert(old(out)@ + seq![2u8] =~= old(out)@ + ser_keycode(*c));
            }
        },
        KeyCode::Left => {
            out.push(3u8);
            proof {
                assert(old(out)@ + seq![3u8] =~= old(out)@ + ser_keycode(*c));
            }
        },
        KeyCode::Right => {
            out.push(4u8);
            proof {
                assert(old(out)@ + seq![4u8] =~= old(out)@ + ser_keycode(*c));
            }
        },
        KeyCode::Up => {
            out.push(5u8);
            proof {
                assert(old(out)@ + seq![5u8] =~= old(out)@ + ser_keycode(*c));
            }
        },
        KeyCode::Down => {
            out.push(6u8);
            proof {
                assert(old(out)@ + seq![6u8] =~= old(out)@ + ser_keycode(*c));
            }
        },
        KeyCode::Home => {
            out.push(7u8);
            proof {
                assert(old(out)@ + seq![7u8] =~= old(out)@ + ser_keycode(*c));
            }
        },
        KeyCode::End => {
            out.push(8u8);
            proof {
                assert(old(out)@ + seq![8u8] =~= old(out)@ + ser_keycode(*c));
            }
        },
        KeyCode::PageUp => {
            out.push(9u8);
            proof {
                assert(old(out)@ + seq![9u8] =~= old(out)@ + ser_keycode(*c));
            }
        },
        KeyCode::PageDown => {
            out.push(10u8);
            proof {
                assert(old(out)@ + seq![10u8] =~= old(out)@ + ser_keycode(*c));
            }
        },
        KeyCode::Tab => {
            out.push(11u8);
            proof {
                assert(old(out)@ + seq![11u8] =~= old(out)@ + ser_keycode(*c));
            }
        },
        KeyCode::Delete => {
            out.push(12u8);
            proof {
                assert(old(out)@ + seq![12u8] =~= old(out)@ + ser_keycode(*c));
            }
        },
        KeyCode::Escape => {
            out.push(13u8);
            proof {
                assert(old(out)@ + seq![13u8] =~= old(out)@ + ser_keycode(*c));
            }
        },
        KeyCode::F(n) => {
            out.push(14u8);
            out.push(*n);
            proof {
                assert(old(out)@ + seq![14u8] + seq![*n] =~= old(out)@ + ser_keycode(*c));
            }
        },
    }
}

fn enc_key(out: &mut Vec<u8>, k: &EditorKey)
    ensures
        final(out)@ == old(out)@ + ser_key(*k),
{
    enc_keycode(out, &k.code);
    let m = &k.modifiers;
    let b: u8 = (if m.ctrl {
        1u8
    } else {
        0u8
    }) + (if m.alt {
        2u8
    } else {
        0u8
    }) + (if m.shift {
        4u8
    } else {
        0u8
    }) + (if m.meta {
        8u8
    } else {
        0u8
    });
    out.push(b);
    proof {
        assert(b == mods_byte(k.modifiers));
        assert(old(out)@ + ser_keycode(k.code) + seq![mods_byte(k.modifiers)] =~= old(out)@
            + ser_key(*k));
    }
}

fn enc_event(out: &mut Vec<u8>, e: &EditorEvent)
    ensures
        final(out)@ == old(out)@ + ser_event(*e),
{
    match e {
        EditorEvent::Shutdown => {
            out.push(0u8);
            proof {
                assert(old(out)@ + seq![0u8] =~= old(out)@ + ser_event(*e));
            }
        },
        EditorEvent::Redraw => {
            out.push(1u8);
            proof {
                assert(old(out)@ + seq![1u8] =~= old(out)@ + ser_event(*e));
            }
        },
        EditorEvent::Error(m) => {
            out.push(2u8);
            enc_string(out, m.as_str());
            proof {
                assert(old(out)@ + seq![2u8] + ser_string(m@) =~= old(out)@ + ser_event(*e));
            }
        },
        EditorEvent::Info(m) => {
            out.push(3u8);
            enc_string(out, m.as_str());
            proof {
                assert(old(out)@ + seq![3u8] + ser_string(m@) =~= old(out)@ + ser_event(*e));
            }
        },
    }
}

fn enc_events(out: &mut Vec<u8>, es: &Vec<EditorEvent>)
    ensures
        final(out)@ == old(out)@ + ser_events(es@),
{
    let n = es.len();
    enc_unat(out, n as u64, 8);
    let mut i: usize = 0;
    proof {
        assert(ser_events_elems(es@.take(0)) =~= Seq::<u8>::empty());
        assert(old(out)@ + ser_unat(n as nat, 8) + Seq::<u8>::empty() =~= old(out)@ + ser_unat(
            n as nat,
            8,
        ));
    }
    while i < n
        invariant
            0 <= i <= n,
            n == es@.len(),
            out@ == old(out)@ + ser_unat(n as nat, 8) + ser_events_elems(es@.take(i as int)),
        decreases n - i,
    {
        enc_event(out, &es[i]);
        proof {
            assert(es@.take(i + 1) =~= es@.take(i as int).push(es@[i as int]));
            lemma_ser_events_snoc(es@.take(i as int), es@[i as int]);
            assert(old(out)@ + ser_unat(n as nat, 8) + ser_events_elems(es@.take(i as int))
                + ser_event(es@[i as int]) =~= old(out)@ + ser_unat(n as nat, 8)
                + ser_events_elems(es@.take(i + 1)));
        }
        i = i + 1;
    }
    proof {
        assert(es@.take(n as int) =~= es@);
        assert(old(out)@ + ser_unat(n as nat, 8) + ser_events_elems(es@) =~= old(out)@
            + ser_events(es@));
    }
}

fn enc_lines(out: &mut Vec<u8>, ls: &Vec<String>)
    ensures
        final(out)@ == old(out)@ + ser_lines(ls@),
{
    let n = ls.len();
    enc_unat(out, n as u64, 8);
    let mut i: usize = 0;
    proof {
        assert(ser_lines_elems(ls@.take(0)) =~= Seq::<u8>::empty());
        assert(old(out)@ + ser_unat(n as nat, 8) + Seq::<u8>::empty() =~= old(out)@ + ser_unat(
            n as nat,
            8,
        ));
    }
    while i < n
        invariant
            0 <= i <= n,
            n == ls@.len(),
            out@ == old(out)@ + ser_unat(n as nat, 8) + ser_lines_elems(ls@.take(i as int)),
        decreases n - i,
    {
        enc_string(out, ls[i].as_str());
        proof {
            assert(ls@.take(i + 1) =~= ls@.take(i as int).push(ls@[i as int]));
            lemma_ser_lines_snoc(ls@.take(i as int), ls@[i as int]);
            assert(old(out)@ + ser_unat(n as nat, 8) + ser_lines_elems(ls@.take(i as int))
                + ser_string(ls@[i as int]@) =~= old(out)@ + ser_unat(n as nat, 8)
                + ser_lines_elems(ls@.take(i + 1)));
        }
        i = i + 1;
    }
    proof {
        assert(ls@.take(n as int) =~= ls@);
        assert(old(out)@ + ser_unat(n as nat, 8) + ser_lines_elems(ls@) =~= old(out)@ + ser_lines(
            ls@,
        ));
    }
}

fn enc_render(out: &mut Vec<u8>, r: &RenderData)
    ensures
        final(out)@ == old(out)@ + ser_render(*r),
{
    enc_lines(out, &r.lines);
    enc_position(out, &r.cursor);
    enc_unat(out, r.viewport_start as u64, 8);
    enc_unat(out, r.viewport_height as u64, 8);
    proof {
        assert(old(out)@ + ser_lines(r.lines@) + ser_position(r.cursor) + ser_unat(
            r.viewport_start as nat,
            8,
        ) + ser_unat(r.viewport_height as nat, 8) =~= old(out)@ + ser_render(*r));
    }
}

fn enc_info(out: &mut Vec<u8>, i: &EditorInfo)
    ensures
        final(out)@ == old(out)@ + ser_info(*i),
{
    enc_position(out, &i.cursor);
    enc_opt_string(out, &i.filepath);
    enc_opt_string(out, &i.name);
    enc_bool(out, i.modified);
    enc_unat(out, i.line_count as u64, 8);
    enc_unat(out, i.char_count as u64, 8);
    proof {
        assert(old(out)@ + ser_position(i.cursor) + ser_opt_string(i.filepath.deep_view())
            + ser_opt_string(i.name.deep_view()) + ser_bool(i.modified) + ser_unat(
            i.line_count as nat,
            8,
        ) + ser_unat(i.char_count as nat, 8) =~= old(out)@ + ser_info(*i));
    }
}

fn enc_message(out: &mut Vec<u8>, m: &Message)
    ensures
        final(out)@ == old(out)@ + ser_message(*m),
{
    match m {
        Message::KeyPress { key } => {
            out.push(0u8);
            enc_key(out, key);
            proof {
                assert(old(out)@ + seq![0u8] + ser_key(*key) =~= old(out)@ + ser_message(*m));
            }
        },
        Message::ClientStart => {
            out.push(1u8);
            proof {
                assert(old(out)@ + seq![1u8] =~= old(out)@ + ser_message(*m));
            }
        },
        Message::ServerStatusCheck => {
            out.push(2u8);
            proof {
                assert(old(out)@ + seq![2u8] =~= old(out)@ + ser_message(*m));
            }
        },
        Message::ServerStatusOk => {
            out.push(3u8);
            proof {
                assert(old(out)@ + seq![3u8] =~= old(out)@ + ser_message(*m));
            }
        },
        Message::StateUpdate { events, render_data, info } => {
            out.push(4u8);
            enc_events(out, events);
            enc_render(out, render_data);
            enc_info(out, info);
            proof {
                assert(old(out)@ + seq![4u8] + ser_events(events@) + ser_render(*render_data)
                    + ser_info(*info) =~= old(out)@ + ser_message(*m));
            }
        },
    }
}

/// A string short enough to exist in memory; the length prefix of the wire
/// format is faithful only for these.
pub open spec fn bounded_str(s: Seq<char>) -> bool {
    s.len() <= usize::MAX
}

pub open spec fn bounded_event(e: EditorEvent) -> bool {
    match e {
        EditorEvent::Error(m) => bounded_str(m@),
        EditorEvent::Info(m) => bounded_str(m@),
        _ => true,
    }
}

pub open spec fn bounded_events(es: Seq<EditorEvent>) -> bool {
    es.len() <= usize::MAX && forall|i: int| 0 <= i < es.len() ==> bounded_event(#[trigger] es[i])
}

pub open spec fn bounded_lines(ls: Seq<String>) -> bool {
    ls.len() <= usize::MAX && forall|i: int| 0 <= i < ls.len() ==> bounded_str(#[trigger] ls[i]@)
}

pub open spec fn bounded_opt_str(o: Option<Seq<char>>) -> bool {
    match o {
        Some(s) => bounded_str(s),
        None => true,
    }
}

/// A message whose contained strings and lists fit in memory; every message
/// a program actually holds is bounded.
pub open spec fn bounded_message(m: Message) -> bool {
    match m {
        Message::StateUpdate { events, render_data, info } => {
            &&& bounded_events(events@)
            &&& bounded_lines(render_data.lines@)
            &&& bounded_opt_str(info.filepath.deep_view())
            &&& bounded_opt_str(info.name.deep_view())
        },
        _ => true,
    }
}

proof fn lemma_ser_chars_len(s: Seq<char>)
    ensures
        ser_chars(s).len() == 4 * s.len(),
    decreases s.len(),
{
    if s.len() > 0 {
        lemma_ser_unat_len((s[0] as u32) as nat, 4);
        lemma_ser_chars_len(s.skip(1));
    }
}

proof fn lemma_ser_chars_index(s: Seq<char>, i: int)
    requires
        0 <= i < s.len(),
    ensures
        ser_chars(s).subrange(4 * i, 4 * i + 4) == ser_char(s[i]),
    decreases i,
{
    lemma_ser_chars_len(s);
    lemma_ser_unat_len((s[0] as u32) as nat, 4);
    if i == 0 {
        assert(ser_chars(s).subrange(0, 4) =~= ser_char(s[0]));
    } else {
        lemma_ser_chars_index(s.skip(1), i - 1);
        lemma_ser_chars_len(s.skip(1));
        assert(s.skip(1)[i - 1] == s[i]);
        assert forall|j: int| 0 <= j < 4 implies #[trigger] ser_chars(s).subrange(
            4 * i,
            4 * i + 4,
        )[j] == ser_chars(s.skip(1)).subrange(4 * (i - 1), 4 * (i - 1) + 4)[j] by {
            assert(ser_chars(s)[4 * i + j] == (ser_char(s[0]) + ser_chars(s.skip(1)))[4 * i + j]);
            assert(ser_chars(s.skip(1))[4 * (i - 1) + j] == ser_chars(s).subrange(
                4 * i,
                4 * i + 4,
            )[j]);
        }
        assert(ser_chars(s).subrange(4 * i, 4 * i + 4) =~= ser_chars(s.skip(1)).subrange(
            4 * (i - 1),
            4 * (i - 1) + 4,
        ));
    }
}

/// A character's code point is below `256^4`.
proof fn lemma_char_bound(c: char)
    ensures
        ((c as u32) as nat) < pow256(4),
{
    reveal_with_fuel(pow256, 5);
}

/// Two strings serialized at the same offset serialize identically.
proof fn lemma_psf_string(b: Seq<u8>, pos: int, s1: Seq<char>, s2: Seq<char>)
    requires
        bounded_str(s1),
        bounded_str(s2),
        is_at(b, pos, ser_string(s1)),
        is_at(b, pos, ser_string(s2)),
    ensures
        ser_string(s1) == ser_string(s2),
        s1.len() == s2.len(),
{
    lemma_ser_unat_len(s1.len(), 8);
    lemma_ser_unat_len(s2.len(), 8);
    lemma_ser_chars_len(s1);
    lemma_ser_chars_len(s2);
    lemma_is_at_concat(b, pos, ser_unat(s1.len(), 8), ser_chars(s1));
    lemma_is_at_concat(b, pos, ser_unat(s2.len(), 8), ser_chars(s2));
    lemma_psf_fixed(b, pos, ser_unat(s1.len(), 8), ser_unat(s2.len(), 8));
    lemma_pow256_len_bound(s1.len());
    lemma_pow256_len_bound(s2.len());
    lemma_ser_unat_injective(s1.len(), s2.len(), 8);
    lemma_psf_fixed(b, pos, ser_string(s1), ser_string(s2));
}

/// Sequence lengths fit eight base-256 digits.
proof fn lemma_pow256_len_bound(n: nat)
    requires
        n <= usize::MAX,
    ensures
        n < pow256(8),
{
    reveal_with_fuel(pow256, 10);
}

proof fn lemma_psf_opt_string(b: Seq<u8>, pos: int, o1: Option<Seq<char>>, o2: Option<Seq<char>>)
    requires
        bounded_opt_str(o1),
        bounded_opt_str(o2),
        is_at(b, pos, ser_opt_string(o1)),
        is_at(b, pos, ser_opt_string(o2)),
    ensures
        ser_opt_string(o1) == ser_opt_string(o2),
{
    match (o1, o2) {
        (None, None) => {},
        (Some(s1), Some(s2)) => {
            lemma_is_at_concat(b, pos, seq![1u8], ser_string(s1));
            lemma_is_at_concat(b, pos, seq![1u8], ser_string(s2));
            lemma_psf_string(b, pos + 1, s1, s2);
        },
        (None, Some(s2)) => {
            lemma_is_at_concat(b, pos, seq![1u8], ser_string(s2));
            assert(b.subrange(pos, pos + 1)[0] == b[pos]);
            assert(b.subrange(pos, pos + 1) == seq![0u8]);
            assert(b.subrange(pos, pos + 1) == seq![1u8]);
            assert(seq![0u8][0] == 0u8 && seq![1u8][0] == 1u8);
            assert(false);
        },
        (Some(s1), None) => {
            lemma_is_at_concat(b, pos, seq![1u8], ser_string(s1));
            assert(b.subrange(pos, pos + 1)[0] == b[pos]);
            assert(b.subrange(pos, pos + 1) == seq![0u8]);
            assert(b.subrange(pos, pos + 1) == seq![1u8]);
            assert(seq![0u8][0] == 0u8 && seq![1u8][0] == 1u8);
            assert(false);
        },
    }
}

proof fn lemma_psf_event(b: Seq<u8>, pos: int, e1: EditorEvent, e2: EditorEvent)
    requires
        bounded_event(e1),
        bounded_event(e2),
        is_at(b, pos, ser_event(e1)),
        is_at(b, pos, ser_event(e2)),
    ensures
        ser_event(e1) == ser_event(e2),
{
    let t1 = ser_event(e1);
    let t2 = ser_event(e2);
    assert(b[pos] == t1[0]);
    assert(b[pos] == t2[0]);
    match (e1, e2) {
        (EditorEvent::Error(m1), EditorEvent::Error(m2)) => {
            lemma_is_at_concat(b, pos, seq![2u8], ser_string(m1@));
            lemma_is_at_concat(b, pos, seq![2u8], ser_string(m2@));
            lemma_psf_string(b, pos + 1, m1@, m2@);
        },
        (EditorEvent::Info(m1), EditorEvent::Info(m2)) => {
            lemma_is_at_concat(b, pos, seq![3u8], ser_string(m1@));
            lemma_is_at_concat(b, pos, seq![3u8], ser_string(m2@));
            lemma_psf_string(b, pos + 1, m1@, m2@);
        },
        _ => {},
    }
}

proof fn lemma_ser_events_elems_split(es: Seq<EditorEvent>, k: int)
    requires
        0 <= k <= es.len(),
    ensures
        ser_events_elems(es) == ser_events_elems(es.take(k)) + ser_events_elems(es.skip(k)),
    decreases k,
{
    if k == 0 {
        assert(es.take(0) =~= Seq::<EditorEvent>::empty());
        assert(es.skip(0) =~= es);
        assert(ser_events_elems(Seq::<EditorEvent>::empty()) == Seq::<u8>::empty());
        assert(Seq::<u8>::empty() + ser_events_elems(es) =~= ser_events_elems(es));
    } else {
        lemma_ser_events_elems_split(es.skip(1), k - 1);
        assert(es.take(k)[0] == es[0]);
        assert(es.take(k).skip(1) =~= es.skip(1).take(k - 1));
        assert(es.skip(k) =~= es.skip(1).skip(k - 1));
        assert(ser_events_elems(es.take(k)) == ser_event(es[0]) + ser_events_elems(
            es.skip(1).take(k - 1),
        ));
        assert((ser_event(es[0]) + ser_events_elems(es.skip(1).take(k - 1))) + ser_events_elems(
            es.skip(1).skip(k - 1),
        ) =~= ser_event(es[0]) + (ser_events_elems(es.skip(1).take(k - 1)) + ser_events_elems(
            es.skip(1).skip(k - 1),
        )));
    }
}

proof fn lemma_psf_events_elems(b: Seq<u8>, pos: int, xs: Seq<EditorEvent>, ys: Seq<EditorEvent>)
    requires
        xs.len() == ys.len(),
        forall|i: int| 0 <= i < xs.len() ==> bounded_event(#[trigger] xs[i]),
        forall|i: int| 0 <= i < ys.len() ==> bounded_event(#[trigger] ys[i]),
        is_at(b, pos, ser_events_elems(xs)),
        is_at(b, pos, ser_events_elems(ys)),
    ensures
        ser_events_elems(xs) == ser_events_elems(ys),
    decreases xs.len(),
{
    if xs.len() > 0 {
        lemma_is_at_concat(b, pos, ser_event(xs[0]), ser_events_elems(xs.skip(1)));
        lemma_is_at_concat(b, pos, ser_event(ys[0]), ser_events_elems(ys.skip(1)));
        lemma_psf_event(b, pos, xs[0], ys[0]);
        lemma_psf_events_elems(b, pos + ser_event(xs[0]).len(), xs.skip(1), ys.skip(1));
    }
}

proof fn lemma_ser_events_elems_min_len(es: Seq<EditorEvent>)
    ensures
        ser_events_elems(es).len() >= es.len(),
    decreases es.len(),
{
    if es.len() > 0 {
        lemma_ser_events_elems_min_len(es.skip(1));
    }
}

proof fn lemma_ser_lines_elems_split(ls: Seq<String>, k: int)
    requires
        0 <= k <= ls.len(),
    ensures
        ser_lines_elems(ls) == ser_lines_elems(ls.take(k)) + ser_lines_elems(ls.skip(k)),
    decreases k,
{
    if k == 0 {
        assert(ls.take(0) =~= Seq::<String>::empty());
        assert(ls.skip(0) =~= ls);
        assert(ser_lines_elems(Seq::<String>::empty()) == Seq::<u8>::empty());
        assert(Seq::<u8>::empty() + ser_lines_elems(ls) =~= ser_lines_elems(ls));
    } else {
        lemma_ser_lines_elems_split(ls.skip(1), k - 1);
        assert(ls.take(k)[0] == ls[0]);
        assert(ls.take(k).skip(1) =~= ls.skip(1).take(k - 1));
        assert(ls.skip(k) =~= ls.skip(1).skip(k - 1));
        assert(ser_lines_elems(ls.take(k)) == ser_string(ls[0]@) + ser_lines_elems(
            ls.skip(1).take(k - 1),
        ));
        assert((ser_string(ls[0]@) + ser_lines_elems(ls.skip(1).take(k - 1))) + ser_lines_elems(
            ls.skip(1).skip(k - 1),
        ) =~= ser_string(ls[0]@) + (ser_lines_elems(ls.skip(1).take(k - 1)) + ser_lines_elems(
            ls.skip(1).skip(k - 1),
        )));
    }
}

proof fn lemma_psf_lines_elems(b: Seq<u8>, pos: int, xs: Seq<String>, ys: Seq<String>)
    requires
        xs.len() == ys.len(),
        forall|i: int| 0 <= i < xs.len() ==> bounded_str(#[trigger] xs[i]@),
        forall|i: int| 0 <= i < ys.len() ==> bounded_str(#[trigger] ys[i]@),
        is_at(b, pos, ser_lines_elems(xs)),
        is_at(b, pos, ser_lines_elems(ys)),
    ensures
        ser_lines_elems(xs) == ser_lines_elems(ys),
    decreases xs.len(),
{
    if xs.len() > 0 {
        lemma_is_at_concat(b, pos, ser_string(xs[0]@), ser_lines_elems(xs.skip(1)));
        lemma_is_at_concat(b, pos, ser_string(ys[0]@), ser_lines_elems(ys.skip(1)));
        lemma_psf_string(b, pos, xs[0]@, ys[0]@);
        lemma_psf_lines_elems(b, pos + ser_string(xs[0]@).len(), xs.skip(1), ys.skip(1));
    }
}

proof fn lemma_ser_lines_elems_min_len(ls: Seq<String>)
    ensures
        ser_lines_elems(ls).len() >= ls.len(),
    decreases ls.len(),
{
    if ls.len() > 0 {
        lemma_ser_lines_elems_min_len(ls.skip(1));
        lemma_ser_unat_len(ls[0]@.len(), 8);
    }
}

fn dec_u8(b: &[u8], pos: usize) -> (r: Option<(u8, usize)>)
    ensures
        match r {
            Some(v) => v.1 == pos + 1 && pos < b@.len() && v.0 == b@[pos as int],
            None => pos >= b@.len(),
        },
{
    if pos < b.len() {
        Some((b[pos], pos + 1))
    } else {
        None
    }
}

fn dec_char(b: &[u8], pos: usize) -> (r: Option<(char, usize)>)
    ensures
        match r {
            Some(v) => v.1 == pos + 4 && is_at(b@, pos as int, ser_char(v.0)),
            None => forall|c: char| !is_at(b@, pos as int, #[trigger] ser_char(c)),
        },
{
    match dec_unat(b, pos, 4) {
        None => {
            proof {
                assert forall|c: char| !is_at(b@, pos as int, #[trigger] ser_char(c)) by {
                    lemma_ser_unat_len((c as u32) as nat, 4);
                }
            }
            None
        },
        Some((u, p2)) => {
            proof {
                reveal_with_fuel(pow256, 5);
            }
            match char_from_u32(u as u32) {
                Some(c) => {
                    proof {
                        assert((c as u32) as nat == u as nat);
                    }
                    Some((c, p2))
                },
                None => {
                    proof {
                        assert forall|c: char| !is_at(b@, pos as int, #[trigger] ser_char(c)) by {
                            if is_at(b@, pos as int, ser_char(c)) {
                                lemma_ser_unat_len((c as u32) as nat, 4);
                                lemma_ser_unat_len(u as nat, 4);
                                assert(b@.subrange(pos as int, pos + 4) == ser_char(c));
                                assert(b@.subrange(pos as int, pos + 4) == ser_unat(u as nat, 4));
                                lemma_char_bound(c);
                                lemma_ser_unat_injective((c as u32) as nat, u as nat, 4);
                                vstd::utf8::char_is_scalar(c);
                                assert(c as u32 == u as u32);
                            }
                        }
                    }
                    None
                },
            }
        },
    }
}

fn dec_usize(b: &[u8], pos: usize) -> (r: Option<(usize, usize)>)
    ensures
        match r {
            Some(v) => v.1 == pos + 8 && is_at(b@, pos as int, ser_unat(v.0 as nat, 8)),
            None => forall|n: nat|
                n <= usize::MAX ==> !is_at(b@, pos as int, #[trigger] ser_unat(n, 8)),
        },
{
    match dec_unat(b, pos, 8) {
        None => {
            proof {
                assert forall|n: nat|
                    n <= usize::MAX implies !is_at(b@, pos as int, #[trigger] ser_unat(n, 8)) by {
                    lemma_ser_unat_len(n, 8);
                }
            }
            None
        },
        Some((u, p2)) => {
            if u as u64 > usize::MAX as u64 {
                proof {
                    assert forall|n: nat|
                        n <= usize::MAX implies !is_at(
                        b@,
                        pos as int,
                        #[trigger] ser_unat(n, 8),
                    ) by {
                        if is_at(b@, pos as int, ser_unat(n, 8)) {
                            lemma_ser_unat_len(n, 8);
                            lemma_ser_unat_len(u as nat, 8);
                            lemma_pow256_len_bound(n);
                            lemma_ser_unat_injective(n, u as nat, 8);
                        }
                    }
                }
                None
            } else {
                Some((u as usize, p2))
            }
        },
    }
}

fn dec_string(b: &[u8], pos: usize) -> (r: Option<(String, usize)>)
    ensures
        match r {
            Some(v) => {
                &&& bounded_str(v.0@)
                &&& is_at(b@, pos as int, ser_string(v.0@))
                &&& v.1 == pos + ser_string(v.0@).len()
            },
            None => forall|t: Seq<char>|
                bounded_str(t) ==> !is_at(b@, pos as int, #[trigger] ser_string(t)),
        },
{
    proof {
        assert forall|t: Seq<char>|
            bounded_str(t) && is_at(b@, pos as int, #[trigger] ser_string(t)) implies is_at(
            b@,
            pos as int,
            ser_unat(t.len(), 8),
        ) && is_at(b@, pos + 8, ser_chars(t)) by {
            lemma_is_at_concat(b@, pos as int, ser_unat(t.len(), 8), ser_chars(t));
            lemma_ser_unat_len(t.len(), 8);
        }
    }
    let (count, mut p) = match dec_usize(b, pos) {
        None => {
            proof {
                assert forall|t: Seq<char>|
                    bounded_str(t) implies !is_at(b@, pos as int, #[trigger] ser_string(t)) by {
                    if is_at(b@, pos as int, ser_string(t)) {
                        assert(is_at(b@, pos as int, ser_unat(t.len(), 8)));
                    }
                }
            }
            return None;
        },
        Some(v) => v,
    };
    // each character takes four bytes
    if b.len() < p || count > (b.len() - p) / 4 {
        proof {
            assert forall|t: Seq<char>|
                bounded_str(t) implies !is_at(b@, pos as int, #[trigger] ser_string(t)) by {
                if is_at(b@, pos as int, ser_string(t)) {
                    lemma_ser_unat_len(t.len(), 8);
                    lemma_ser_unat_len(count as nat, 8);
                    lemma_pow256_len_bound(t.len());
                    lemma_pow256_len_bound(count as nat);
                    lemma_psf_fixed(
                        b@,
                        pos as int,
                        ser_unat(t.len(), 8),
                        ser_unat(count as nat, 8),
                    );
                    lemma_ser_unat_injective(t.len(), count as nat, 8);
                    lemma_ser_chars_len(t);
                }
            }
        }
        return None;
    }
    let ghost p0 = p as int;
    let mut chars: Vec<char> = Vec::new();
    let mut i: usize = 0;
    proof {
        assert(ser_chars(chars@) == Seq::<u8>::empty());
        assert(b@.subrange(p0, p0) =~= Seq::<u8>::empty());
        assert forall|t: Seq<char>|
            bounded_str(t) && is_at(b@, pos as int, #[trigger] ser_string(t)) implies t.len()
            == count && is_at(b@, p0, ser_chars(t)) by {
            lemma_ser_unat_len(t.len(), 8);
            lemma_ser_unat_len(count as nat, 8);
            lemma_pow256_len_bound(t.len());
            lemma_pow256_len_bound(count as nat);
            lemma_psf_fixed(b@, pos as int, ser_unat(t.len(), 8), ser_unat(count as nat, 8));
            lemma_ser_unat_injective(t.len(), count as nat, 8);
        }
    }
    while i < count
        invariant
            0 <= i <= count,
            chars@.len() == i,
            p == p0 + 4 * i,
            p0 + 4 * count <= b@.len(),
            b@.len() <= usize::MAX,
            ser_chars(chars@) == b@.subrange(p0, p as int),
            forall|t: Seq<char>|
                bounded_str(t) && is_at(b@, pos as int, #[trigger] ser_string(t)) ==> t.len()
                    == count && is_at(b@, p0, ser_chars(t)),
            pos + 8 == p0,
        decreases count - i,
    {
        match dec_char(b, p) {
            Some((c, p2)) => {
                let ghost old_chars = chars@;
                chars.push(c);
                proof {
                    lemma_ser_chars_snoc(old_chars, c);
                    lemma_ser_unat_len((c as u32) as nat, 4);
                    assert(chars@ =~= old_chars.push(c));
                    assert(b@.subrange(p0, p2 as int) =~= b@.subrange(p0, p as int) + b@.subrange(
                        p as int,
                        p + 4,
                    ));
                }
                p = p2;
            },
            None => {
                proof {
                    assert forall|t: Seq<char>|
                        bounded_str(t) implies !is_at(
                        b@,
                        pos as int,
                        #[trigger] ser_string(t),
                    ) by {
                        if is_at(b@, pos as int, ser_string(t)) {
                            lemma_ser_chars_index(t, i as int);
                            lemma_ser_chars_len(t);
                            assert(b@.subrange(p0, p0 + 4 * t.len()) == ser_chars(t));
                            assert forall|j: int| 0 <= j < 4 implies b@.subrange(
                                p as int,
                                p + 4,
                            )[j] == ser_char(t[i as int])[j] by {
                                assert(ser_chars(t)[4 * i + j] == b@.subrange(
                                    p0,
                                    p0 + 4 * t.len(),
                                )[4 * i + j]);
                                assert(ser_chars(t).subrange(4 * i, 4 * i + 4)[j] == ser_chars(
                                    t,
                                )[4 * i + j]);
                            }
                            assert(b@.subrange(p as int, p + 4) =~= ser_char(t[i as int]));
                            assert(is_at(b@, p as int, ser_char(t[i as int])));
                        }
                    }
                }
                return None;
            },
        }
        i = i + 1;
    }
    let s = crate::rope::string_from_chars(&chars);
    proof {
        lemma_ser_chars_len(chars@);
        lemma_ser_unat_len(count as nat, 8);
        assert(ser_string(s@) =~= ser_unat(chars@.len(), 8) + ser_chars(chars@));
        assert(ser_string(s@).len() == 8 + 4 * (count as int));
        assert(b@.subrange(pos as int, pos + 8) == ser_unat(count as nat, 8));
        assert(b@.subrange(p0, p as int) == ser_chars(chars@));
        assert(b@.subrange(pos as int, pos + 8 + 4 * (count as int)) =~= b@.subrange(
            pos as int,
            pos + 8,
        ) + b@.subrange(p0, p0 + 4 * (count as int)));
        assert(b@.subrange(pos as int, pos + ser_string(s@).len()) == ser_string(s@));
        assert(is_at(b@, pos as int, ser_string(s@)));
    }
    Some((s, p))
}

fn dec_opt_string(b: &[u8], pos: usize) -> (r: Option<(Option<String>, usize)>)
    ensures
        match r {
            Some(v) => {
                &&& bounded_opt_str(v.0.deep_view())
                &&& is_at(b@, pos as int, ser_opt_string(v.0.deep_view()))
                &&& v.1 == pos + ser_opt_string(v.0.deep_view()).len()
            },
            None => forall|o: Option<Seq<char>>|
                bounded_opt_str(o) ==> !is_at(b@, pos as int, #[trigger] ser_opt_string(o)),
        },
{
    proof {
        assert forall|o: Option<Seq<char>>|
            is_at(b@, pos as int, #[trigger] ser_opt_string(o)) implies pos < b@.len() && ((
        o is None && b@[pos as int] == 0u8) || (o is Some && b@[pos as int] == 1u8)) by {
            match o {
                None => {
                    assert(b@.subrange(pos as int, pos + 1)[0] == b@[pos as int]);
                    assert(ser_opt_string(o)[0] == 0u8);
                },
                Some(s) => {
                    lemma_is_at_concat(b@, pos as int, seq![1u8], ser_string(s));
                    assert(b@.subrange(pos as int, pos + 1)[0] == b@[pos as int]);
                    assert(b@.subrange(pos as int, pos + 1) == seq![1u8]);
                    assert(seq![1u8][0] == 1u8);
                },
            }
        }
    }
    match dec_u8(b, pos) {
        None => None,
        Some((tag, p1)) => {
            if tag == 0 {
                proof {
                    assert(b@.subrange(pos as int, pos + 1) =~= seq![0u8]);
                }
                Some((None, p1))
            } else if tag == 1 {
                match dec_string(b, p1) {
                    Some((s, p2)) => {
                        proof {
                            assert(b@.subrange(pos as int, pos + 1) =~= seq![1u8]);
                            lemma_is_at_concat(b@, pos as int, seq![1u8], ser_string(s@));
                        }
                        Some((Some(s), p2))
                    },
                    None => {
                        proof {
                            assert forall|o: Option<Seq<char>>|
                                bounded_opt_str(o) implies !is_at(
                                b@,
                                pos as int,
                                #[trigger] ser_opt_string(o),
                            ) by {
                                if is_at(b@, pos as int, ser_opt_string(o)) {
                                    match o {
                                        Some(s) => {
                                            lemma_is_at_concat(
                                                b@,
                                                pos as int,
                                                seq![1u8],
                                                ser_string(s),
                                            );
                                        },
                                        None => {},
                                    }
                                }
                            }
                        }
                        None
                    },
                }
            } else {
                None
            }
        },
    }
}

fn dec_bool(b: &[u8], pos: usize) -> (r: Option<(bool, usize)>)
    ensures
        match r {
            Some(v) => v.1 == pos + 1 && is_at(b@, pos as int, ser_bool(v.0)),
            None => forall|v: bool| !is_at(b@, pos as int, #[trigger] ser_bool(v)),
        },
{
    proof {
        assert forall|v: bool|
            is_at(b@, pos as int, #[trigger] ser_bool(v)) implies pos < b@.len() && (
        b@[pos as int] == 0u8 || b@[pos as int] == 1u8) by {
            assert(b@.subrange(pos as int, pos + 1)[0] == b@[pos as int]);
        }
    }
    match dec_u8(b, pos) {
        None => None,
        Some((tag, p1)) => {
            if tag == 0 {
                proof {
                    assert(b@.subrange(pos as int, pos + 1) =~= seq![0u8]);
                }
                Some((false, p1))
            } else if tag == 1 {
                proof {
                    assert(b@.subrange(pos as int, pos + 1) =~= seq![1u8]);
                }
                Some((true, p1))
            } else {
                None
            }
        },
    }
}

fn dec_position(b: &[u8], pos: usize) -> (r: Option<(Position, usize)>)
    ensures
        match r {
            Some(v) => is_at(b@, pos as int, ser_position(v.0)) && v.1 == pos + 16,
            None => forall|p: Position| !is_at(b@, pos as int, #[trigger] ser_position(p)),
        },
{
    proof {
        assert forall|p: Position|
            is_at(b@, pos as int, #[trigger] ser_position(p)) implies is_at(
            b@,
            pos as int,
            ser_unat(p.line as nat, 8),
        ) && is_at(b@, pos + 8, ser_unat(p.column as nat, 8)) by {
            lemma_is_at_concat(
                b@,
                pos as int,
                ser_unat(p.line as nat, 8),
                ser_unat(p.column as nat, 8),
            );
            lemma_ser_unat_len(p.line as nat, 8);
        }
    }
    match dec_usize(b, pos) {
        None => None,
        Some((line, p1)) => match dec_usize(b, p1) {
            None => None,
            Some((column, p2)) => {
                proof {
                    lemma_ser_unat_len(line as nat, 8);
                    lemma_ser_unat_len(column as nat, 8);
                    assert(b@.subrange(pos as int, pos + 16) =~= b@.subrange(pos as int, pos + 8)
                        + b@.subrange(pos + 8, pos + 16));
                }
                Some((Position { line, column }, p2))
            },
        },
    }
}

/// The tag byte a key code serializes under.
pub open spec fn keycode_tag(c: KeyCode) -> u8 {
    match c {
        KeyCode::Char(_) => 0u8,
        KeyCode::Backspace => 1u8,
        KeyCode::Enter => 2u8,
        KeyCode::Left => 3u8,
        KeyCode::Right => 4u8,
        KeyCode::Up => 5u8,
        KeyCode::Down => 6u8,
        KeyCode::Home => 7u8,
        KeyCode::End => 8u8,
        KeyCode::PageUp => 9u8,
        KeyCode::PageDown => 10u8,
        KeyCode::Tab => 11u8,
        KeyCode::Delete => 12u8,
        KeyCode::Escape => 13u8,
        KeyCode::F(_) => 14u8,
    }
}

/// A key code's serialization starts with its tag, and its length depends
/// only on the tag.
proof fn lemma_keycode_shape(c: KeyCode)
    ensures
        ser_keycode(c).len() >= 1,
        ser_keycode(c)[0] == keycode_tag(c),
        ser_keycode(c).len() == (if keycode_tag(c) == 0u8 {
            5int
        } else if keycode_tag(c) == 14u8 {
            2int
        } else {
            1int
        }),
{
    match c {
        KeyCode::Char(ch) => {
            lemma_ser_unat_len((ch as u32) as nat, 4);
            assert((seq![0u8] + ser_char(ch))[0] == 0u8);
        },
        KeyCode::F(n) => {
            assert(seq![14u8, n][0] == 14u8);
        },
        _ => {},
    }
}

proof fn lemma_psf_keycode(b: Seq<u8>, pos: int, c1: KeyCode, c2: KeyCode)
    requires
        is_at(b, pos, ser_keycode(c1)),
        is_at(b, pos, ser_keycode(c2)),
    ensures
        ser_keycode(c1) == ser_keycode(c2),
{
    lemma_keycode_shape(c1);
    lemma_keycode_shape(c2);
    assert(b.subrange(pos, pos + ser_keycode(c1).len())[0] == b[pos]);
    assert(b.subrange(pos, pos + ser_keycode(c2).len())[0] == b[pos]);
    assert(keycode_tag(c1) == keycode_tag(c2));
    lemma_psf_fixed(b, pos, ser_keycode(c1), ser_keycode(c2));
}

/// The tag byte an event serializes under.
pub open spec fn event_tag(e: EditorEvent) -> u8 {
    match e {
        EditorEvent::Shutdown => 0u8,
        EditorEvent::Redraw => 1u8,
        EditorEvent::Error(_) => 2u8,
        EditorEvent::Info(_) => 3u8,
    }
}

proof fn lemma_event_shape(e: EditorEvent)
    ensures
        ser_event(e).len() >= 1,
        ser_event(e)[0] == event_tag(e),
{
    match e {
        EditorEvent::Error(m) => {
            assert((seq![2u8] + ser_string(m@))[0] == 2u8);
        },
        EditorEvent::Info(m) => {
            assert((seq![3u8] + ser_string(m@))[0] == 3u8);
        },
        _ => {},
    }
}

/// The tag byte a message serializes under.
pub open spec fn message_tag(m: Message) -> u8 {
    match m {
        Message::KeyPress { .. } => 0u8,
        Message::ClientStart => 1u8,
        Message::ServerStatusCheck => 2u8,
        Message::ServerStatusOk => 3u8,
        Message::StateUpdate { .. } => 4u8,
    }
}

proof fn lemma_message_shape(m: Message)
    ensures
        ser_message(m).len() >= 1,
        ser_message(m)[0] == message_tag(m),
{
    match m {
        Message::KeyPress { key } => {
            assert((seq![0u8] + ser_key(key))[0] == 0u8);
        },
        Message::StateUpdate { events, render_data, info } => {
            assert((seq![4u8] + ser_events(events@) + ser_render(render_data) + ser_info(
                info,
            ))[0] == (seq![4u8] + ser_events(events@))[0]);
            assert((seq![4u8] + ser_events(events@))[0] == 4u8);
        },
        _ => {},
    }
}

fn dec_keycode(b: &[u8], pos: usize) -> (r: Option<(KeyCode, usize)>)
    ensures
        match r {
            Some(v) => is_at(b@, pos as int, ser_keycode(v.0)) && v.1 == pos + ser_keycode(
                v.0,
            ).len(),
            None => forall|c: KeyCode| !is_at(b@, pos as int, #[trigger] ser_keycode(c)),
        },
{
    proof {
        assert forall|c: KeyCode|
            is_at(b@, pos as int, #[trigger] ser_keycode(c)) implies pos < b@.len() && b@[
        pos as int] == keycode_tag(c) by {
            lemma_keycode_shape(c);
            assert(b@.subrange(pos as int, pos + ser_keycode(c).len())[0] == b@[pos as int]);
        }
    }
    match dec_u8(b, pos) {
        None => None,
        Some((tag, p1)) => {
            if tag == 0 {
                match dec_char(b, p1) {
                    Some((ch, p2)) => {
                        proof {
                            lemma_ser_unat_len((ch as u32) as nat, 4);
                            assert(b@.subrange(pos as int, pos + 1) =~= seq![0u8]);
                            lemma_is_at_concat(b@, pos as int, seq![0u8], ser_char(ch));
                        }
                        Some((KeyCode::Char(ch), p2))
                    },
                    None => {
                        proof {
                            assert forall|c: KeyCode|
                                !is_at(b@, pos as int, #[trigger] ser_keycode(c)) by {
                                if is_at(b@, pos as int, ser_keycode(c)) {
                                    match c {
                                        KeyCode::Char(ch) => {
                                            lemma_is_at_concat(
                                                b@,
                                                pos as int,
                                                seq![0u8],
                                                ser_char(ch),
                                            );
                                        },
                                        _ => {},
                                    }
                                }
                            }
                        }
                        None
                    },
                }
            } else if tag == 14 {
                match dec_u8(b, p1) {
                    Some((n, p2)) => {
                        proof {
                            assert(b@.subrange(pos as int, pos + 2) =~= seq![14u8, n]);
                        }
                        Some((KeyCode::F(n), p2))
                    },
                    None => {
                        proof {
                            assert forall|c: KeyCode|
                                !is_at(b@, pos as int, #[trigger] ser_keycode(c)) by {
                                lemma_keycode_shape(c);
                            }
                        }
                        None
                    },
                }
            } else if tag <= 13 {
                let code = if tag == 1 {
                    KeyCode::Backspace
                } else if tag == 2 {
                    KeyCode::Enter
                } else if tag == 3 {
                    KeyCode::Left
                } else if tag == 4 {
                    KeyCode::Right
                } else if tag == 5 {
                    KeyCode::Up
                } else if tag == 6 {
                    KeyCode::Down
                } else if tag == 7 {
                    KeyCode::Home
                } else if tag == 8 {
                    KeyCode::End
                } else if tag == 9 {
                    KeyCode::PageUp
                } else if tag == 10 {
                    KeyCode::PageDown
                } else if tag == 11 {
                    KeyCode::Tab
                } else if tag == 12 {
                    KeyCode::Delete
                } else {
                    KeyCode::Escape
                };
                proof {
                    assert(b@.subrange(pos as int, pos + 1) =~= seq![tag]);
                }
                Some((code, p1))
            } else {
                None
            }
        },
    }
}

fn dec_key(b: &[u8], pos: usize) -> (r: Option<(EditorKey, usize)>)
    ensures
        match r {
            Some(v) => is_at(b@, pos as int, ser_key(v.0)) && v.1 == pos + ser_key(v.0).len(),
            None => forall|k: EditorKey| !is_at(b@, pos as int, #[trigger] ser_key(k)),
        },
{
    proof {
        assert forall|k: EditorKey|
            is_at(b@, pos as int, #[trigger] ser_key(k)) implies is_at(
            b@,
            pos as int,
            ser_keycode(k.code),
        ) && is_at(b@, pos + ser_keycode(k.code).len(), seq![mods_byte(k.modifiers)]) by {
            lemma_is_at_concat(
                b@,
                pos as int,
                ser_keycode(k.code),
                seq![mods_byte(k.modifiers)],
            );
        }
    }
    match dec_keycode(b, pos) {
        None => None,
        Some((code, p1)) => {
            proof {
                assert forall|k: EditorKey|
                    is_at(b@, pos as int, #[trigger] ser_key(k)) implies is_at(
                    b@,
                    p1 as int,
                    seq![mods_byte(k.modifiers)],
                ) && b@[p1 as int] == mods_byte(k.modifiers) by {
                    lemma_psf_keycode(b@, pos as int, k.code, code);
                    assert(b@.subrange(p1 as int, p1 + 1)[0] == b@[p1 as int]);
                    assert(seq![mods_byte(k.modifiers)][0] == mods_byte(k.modifiers));
                }
            }
            match dec_u8(b, p1) {
                None => None,
                Some((mb, p2)) => {
                    if mb < 16 {
                        let modifiers = KeyModifiers {
                            ctrl: mb % 2 == 1,
                            alt: (mb / 2) % 2 == 1,
                            shift: (mb / 4) % 2 == 1,
                            meta: (mb / 8) % 2 == 1,
                        };
                        proof {
                            assert(mods_byte(modifiers) == mb);
                            assert(b@.subrange(p1 as int, p1 + 1) =~= seq![mods_byte(modifiers)]);
                            lemma_is_at_concat(
                                b@,
                                pos as int,
                                ser_keycode(code),
                                seq![mods_byte(modifiers)],
                            );
                        }
                        Some((EditorKey { code, modifiers }, p2))
                    } else {
                        proof {
                            assert forall|k: EditorKey|
                                !is_at(b@, pos as int, #[trigger] ser_key(k)) by {
                                if is_at(b@, pos as int, ser_key(k)) {
                                    assert(b@[p1 as int] == mods_byte(k.modifiers));
                                    assert(mods_byte(k.modifiers) < 16);
                                }
                            }
                        }
                        None
                    }
                },
            }
        },
    }
}

fn dec_event(b: &[u8], pos: usize) -> (r: Option<(EditorEvent, usize)>)
    ensures
        match r {
            Some(v) => {
                &&& bounded_event(v.0)
                &&& is_at(b@, pos as int, ser_event(v.0))
                &&& v.1 == pos + ser_event(v.0).len()
            },
            None => forall|e: EditorEvent|
                bounded_event(e) ==> !is_at(b@, pos as int, #[trigger] ser_event(e)),
        },
{
    proof {
        assert forall|e: EditorEvent|
            is_at(b@, pos as int, #[trigger] ser_event(e)) implies pos < b@.len() && b@[pos as int]
            == event_tag(e) by {
            lemma_event_shape(e);
            assert(b@.subrange(pos as int, pos + ser_event(e).len())[0] == b@[pos as int]);
        }
    }
    match dec_u8(b, pos) {
        None => None,
        Some((tag, p1)) => {
            if tag == 0 {
                proof {
                    assert(b@.subrange(pos as int, pos + 1) =~= seq![0u8]);
                }
                Some((EditorEvent::Shutdown, p1))
            } else if tag == 1 {
                proof {
                    assert(b@.subrange(pos as int, pos + 1) =~= seq![1u8]);
                }
                Some((EditorEvent::Redraw, p1))
            } else if tag == 2 || tag == 3 {
                match dec_string(b, p1) {
                    Some((m, p2)) => {
                        let ghost ms = m@;
                        let ev = if tag == 2 {
                            EditorEvent::Error(m)
                        } else {
                            EditorEvent::Info(m)
                        };
                        proof {
                            assert(b@.subrange(pos as int, pos + 1) =~= seq![tag]);
                            lemma_is_at_concat(b@, pos as int, seq![tag], ser_string(ms));
                        }
                        Some((ev, p2))
                    },
                    None => {
                        proof {
                            assert forall|e: EditorEvent|
                                bounded_event(e) implies !is_at(
                                b@,
                                pos as int,
                                #[trigger] ser_event(e),
                            ) by {
                                if is_at(b@, pos as int, ser_event(e)) {
                                    match e {
                                        EditorEvent::Error(m) => {
                                            lemma_is_at_concat(
                                                b@,
                                                pos as int,
                                                seq![2u8],
                                                ser_string(m@),
                                            );
                                        },
                                        EditorEvent::Info(m) => {
                                            lemma_is_at_concat(
                                                b@,
                                                pos as int,
                                                seq![3u8],
                                                ser_string(m@),
                                            );
                                        },
                                        _ => {},
                                    }
                                }
                            }
                        }
                        None
                    },
                }
            } else {
                None
            }
        },
    }
}

/// Two bounded event lists serialized at the same offset serialize
/// identically.
proof fn lemma_psf_events(b: Seq<u8>, pos: int, xs: Seq<EditorEvent>, ys: Seq<EditorEvent>)
    requires
        bounded_events(xs),
        bounded_events(ys),
        is_at(b, pos, ser_events(xs)),
        is_at(b, pos, ser_events(ys)),
    ensures
        ser_events(xs) == ser_events(ys),
{
    lemma_ser_unat_len(xs.len(), 8);
    lemma_ser_unat_len(ys.len(), 8);
    lemma_is_at_concat(b, pos, ser_unat(xs.len(), 8), ser_events_elems(xs));
    lemma_is_at_concat(b, pos, ser_unat(ys.len(), 8), ser_events_elems(ys));
    lemma_psf_fixed(b, pos, ser_unat(xs.len(), 8), ser_unat(ys.len(), 8));
    lemma_pow256_len_bound(xs.len());
    lemma_pow256_len_bound(ys.len());
    lemma_ser_unat_injective(xs.len(), ys.len(), 8);
    lemma_psf_events_elems(b, pos + 8, xs, ys);
}

/// Two bounded line lists serialized at the same offset serialize
/// identically.
proof fn lemma_psf_lines(b: Seq<u8>, pos: int, xs: Seq<String>, ys: Seq<String>)
    requires
        bounded_lines(xs),
        bounded_lines(ys),
        is_at(b, pos, ser_lines(xs)),
        is_at(b, pos, ser_lines(ys)),
    ensures
        ser_lines(xs) == ser_lines(ys),
{
    lemma_ser_unat_len(xs.len(), 8);
    lemma_ser_unat_len(ys.len(), 8);
    lemma_is_at_concat(b, pos, ser_unat(xs.len(), 8), ser_lines_elems(xs));
    lemma_is_at_concat(b, pos, ser_unat(ys.len(), 8), ser_lines_elems(ys));
    lemma_psf_fixed(b, pos, ser_unat(xs.len(), 8), ser_unat(ys.len(), 8));
    lemma_pow256_len_bound(xs.len());
    lemma_pow256_len_bound(ys.len());
    lemma_ser_unat_injective(xs.len(), ys.len(), 8);
    lemma_psf_lines_elems(b, pos + 8, xs, ys);
}

/// Two bounded render snapshots serialized at the same offset serialize
/// identically.
proof fn lemma_psf_render(b: Seq<u8>, pos: int, x: RenderData, y: RenderData)
    requires
        bounded_lines(x.lines@),
        bounded_lines(y.lines@),
        is_at(b, pos, ser_render(x)),
        is_at(b, pos, ser_render(y)),
    ensures
        ser_render(x) == ser_render(y),
{
    let tail_x = ser_position(x.cursor) + ser_unat(x.viewport_start as nat, 8) + ser_unat(
        x.viewport_height as nat,
        8,
    );
    let tail_y = ser_position(y.cursor) + ser_unat(y.viewport_start as nat, 8) + ser_unat(
        y.viewport_height as nat,
        8,
    );
    assert(ser_render(x) =~= ser_lines(x.lines@) + tail_x);
    assert(ser_render(y) =~= ser_lines(y.lines@) + tail_y);
    lemma_is_at_concat(b, pos, ser_lines(x.lines@), tail_x);
    lemma_is_at_concat(b, pos, ser_lines(y.lines@), tail_y);
    lemma_psf_lines(b, pos, x.lines@, y.lines@);
    lemma_ser_unat_len(x.cursor.line as nat, 8);
    lemma_ser_unat_len(x.cursor.column as nat, 8);
    lemma_ser_unat_len(x.viewport_start as nat, 8);
    lemma_ser_unat_len(x.viewport_height as nat, 8);
    lemma_ser_unat_len(y.cursor.line as nat, 8);
    lemma_ser_unat_len(y.cursor.column as nat, 8);
    lemma_ser_unat_len(y.viewport_start as nat, 8);
    lemma_ser_unat_len(y.viewport_height as nat, 8);
    lemma_psf_fixed(b, pos + ser_lines(x.lines@).len(), tail_x, tail_y);
}

fn dec_events(b: &[u8], pos: usize) -> (r: Option<(Vec<EditorEvent>, usize)>)
    ensures
        match r {
            Some(v) => {
                &&& bounded_events(v.0@)
                &&& is_at(b@, pos as int, ser_events(v.0@))
                &&& v.1 == pos + ser_events(v.0@).len()
            },
            None => forall|es: Seq<EditorEvent>|
                bounded_events(es) ==> !is_at(b@, pos as int, #[trigger] ser_events(es)),
        },
{
    proof {
        assert forall|es: Seq<EditorEvent>|
            bounded_events(es) && is_at(b@, pos as int, #[trigger] ser_events(es)) implies is_at(
            b@,
            pos as int,
            ser_unat(es.len(), 8),
        ) && is_at(b@, pos + 8, ser_events_elems(es)) by {
            lemma_is_at_concat(b@, pos as int, ser_unat(es.len(), 8), ser_events_elems(es));
            lemma_ser_unat_len(es.len(), 8);
        }
    }
    let (count, p_start) = match dec_usize(b, pos) {
        None => {
            return None;
        },
        Some(v) => v,
    };
    if b.len() < p_start || count > b.len() - p_start {
        proof {
            assert forall|es: Seq<EditorEvent>|
                bounded_events(es) implies !is_at(b@, pos as int, #[trigger] ser_events(es)) by {
                if is_at(b@, pos as int, ser_events(es)) {
                    lemma_ser_unat_len(es.len(), 8);
                    lemma_ser_unat_len(count as nat, 8);
                    lemma_pow256_len_bound(es.len());
                    lemma_pow256_len_bound(count as nat);
                    lemma_psf_fixed(
                        b@,
                        pos as int,
                        ser_unat(es.len(), 8),
                        ser_unat(count as nat, 8),
                    );
                    lemma_ser_unat_injective(es.len(), count as nat, 8);
                    lemma_ser_events_elems_min_len(es);
                }
            }
        }
        return None;
    }
    let ghost p0 = p_start as int;
    let mut p = p_start;
    let mut out: Vec<EditorEvent> = Vec::new();
    let mut i: usize = 0;
    proof {
        assert(ser_events_elems(out@) == Seq::<u8>::empty());
        assert(b@.subrange(p0, p0) =~= Seq::<u8>::empty());
        assert forall|es: Seq<EditorEvent>|
            bounded_events(es) && is_at(b@, pos as int, #[trigger] ser_events(es)) implies es.len()
            == count by {
            lemma_ser_unat_len(es.len(), 8);
            lemma_ser_unat_len(count as nat, 8);
            lemma_pow256_len_bound(es.len());
            lemma_pow256_len_bound(count as nat);
            lemma_psf_fixed(b@, pos as int, ser_unat(es.len(), 8), ser_unat(count as nat, 8));
            lemma_ser_unat_injective(es.len(), count as nat, 8);
        }
    }
    while i < count
        invariant
            0 <= i <= count,
            out@.len() == i,
            p0 <= p <= b@.len(),
            b@.len() <= usize::MAX,
            pos + 8 == p0,
            ser_events_elems(out@) == b@.subrange(p0, p as int),
            forall|j: int| 0 <= j < out@.len() ==> bounded_event(#[trigger] out@[j]),
            forall|es: Seq<EditorEvent>|
                bounded_events(es) && is_at(b@, pos as int, #[trigger] ser_events(es)) ==> es.len()
                    == count && is_at(b@, p0, ser_events_elems(es)),
        decreases count - i,
    {
        match dec_event(b, p) {
            Some((e, p2)) => {
                let ghost old_out = out@;
                out.push(e);
                proof {
                    lemma_ser_events_snoc(old_out, e);
                    assert(out@ =~= old_out.push(e));
                    assert(b@.subrange(p0, p2 as int) =~= b@.subrange(p0, p as int) + b@.subrange(
                        p as int,
                        p2 as int,
                    ));
                }
                p = p2;
            },
            None => {
                proof {
                    assert forall|es: Seq<EditorEvent>|
                        bounded_events(es) implies !is_at(
                        b@,
                        pos as int,
                        #[trigger] ser_events(es),
                    ) by {
                        if is_at(b@, pos as int, ser_events(es)) {
                            lemma_ser_events_elems_split(es, i as int);
                            lemma_is_at_concat(
                                b@,
                                p0,
                                ser_events_elems(es.take(i as int)),
                                ser_events_elems(es.skip(i as int)),
                            );
                            assert forall|j: int|
                                0 <= j < es.take(i as int).len() implies bounded_event(
                                #[trigger] es.take(i as int)[j],
                            ) by {
                                assert(es.take(i as int)[j] == es[j]);
                            }
                            assert(is_at(b@, p0, ser_events_elems(out@)));
                            lemma_psf_events_elems(b@, p0, es.take(i as int), out@);
                            let rest = es.skip(i as int);
                            assert(rest.len() > 0);
                            assert(ser_events_elems(rest) == ser_event(rest[0])
                                + ser_events_elems(rest.skip(1)));
                            lemma_is_at_concat(
                                b@,
                                p as int,
                                ser_event(rest[0]),
                                ser_events_elems(rest.skip(1)),
                            );
                            assert(bounded_event(rest[0])) by {
                                assert(rest[0] == es[i as int]);
                            }
                        }
                    }
                }
                return None;
            },
        }
        i = i + 1;
    }
    proof {
        lemma_ser_unat_len(count as nat, 8);
        assert(ser_events(out@) =~= ser_unat(out@.len(), 8) + ser_events_elems(out@));
        assert(b@.subrange(pos as int, pos + 8) == ser_unat(count as nat, 8));
        assert(b@.subrange(pos as int, p as int) =~= b@.subrange(pos as int, pos + 8)
            + b@.subrange(p0, p as int));
        assert(b@.subrange(pos as int, pos + ser_events(out@).len()) == ser_events(out@));
        assert(is_at(b@, pos as int, ser_events(out@)));
    }
    Some((out, p))
}

fn dec_lines(b: &[u8], pos: usize) -> (r: Option<(Vec<String>, usize)>)
    ensures
        match r {
            Some(v) => {
                &&& bounded_lines(v.0@)
                &&& is_at(b@, pos as int, ser_lines(v.0@))
                &&& v.1 == pos + ser_lines(v.0@).len()
            },
            None => forall|ls: Seq<String>|
                bounded_lines(ls) ==> !is_at(b@, pos as int, #[trigger] ser_lines(ls)),
        },
{
    proof {
        assert forall|ls: Seq<String>|
            bounded_lines(ls) && is_at(b@, pos as int, #[trigger] ser_lines(ls)) implies is_at(
            b@,
            pos as int,
            ser_unat(ls.len(), 8),
        ) && is_at(b@, pos + 8, ser_lines_elems(ls)) by {
            lemma_is_at_concat(b@, pos as int, ser_unat(ls.len(), 8), ser_lines_elems(ls));
            lemma_ser_unat_len(ls.len(), 8);
        }
    }
    let (count, p_start) = match dec_usize(b, pos) {
        None => {
            return None;
        },
        Some(v) => v,
    };
    if b.len() < p_start || count > b.len() - p_start {
        proof {
            assert forall|ls: Seq<String>|
                bounded_lines(ls) implies !is_at(b@, pos as int, #[trigger] ser_lines(ls)) by {
                if is_at(b@, pos as int, ser_lines(ls)) {
                    lemma_ser_unat_len(ls.len(), 8);
                    lemma_ser_unat_len(count as nat, 8);
                    lemma_pow256_len_bound(ls.len());
                    lemma_pow256_len_bound(count as nat);
                    lemma_psf_fixed(
                        b@,
                        pos as int,
                        ser_unat(ls.len(), 8),
                        ser_unat(count as nat, 8),
                    );
                    lemma_ser_unat_injective(ls.len(), count as nat, 8);
                    lemma_ser_lines_elems_min_len(ls);
                }
            }
        }
        return None;
    }
    let ghost p0 = p_start as int;
    let mut p = p_start;
    let mut out: Vec<String> = Vec::new();
    let mut i: usize = 0;
    proof {
        assert(ser_lines_elems(out@) == Seq::<u8>::empty());
        assert(b@.subrange(p0, p0) =~= Seq::<u8>::empty());
        assert forall|ls: Seq<String>|
            bounded_lines(ls) && is_at(b@, pos as int, #[trigger] ser_lines(ls)) implies ls.len()
            == count by {
            lemma_ser_unat_len(ls.len(), 8);
            lemma_ser_unat_len(count as nat, 8);
            lemma_pow256_len_bound(ls.len());
            lemma_pow256_len_bound(count as nat);
            lemma_psf_fixed(b@, pos as int, ser_unat(ls.len(), 8), ser_unat(count as nat, 8));
            lemma_ser_unat_injective(ls.len(), count as nat, 8);
        }
    }
    while i < count
        invariant
            0 <= i <= count,
            out@.len() == i,
            p0 <= p <= b@.len(),
            b@.len() <= usize::MAX,
            pos + 8 == p0,
            ser_lines_elems(out@) == b@.subrange(p0, p as int),
            forall|j: int| 0 <= j < out@.len() ==> bounded_str(#[trigger] out@[j]@),
            forall|ls: Seq<String>|
                bounded_lines(ls) && is_at(b@, pos as int, #[trigger] ser_lines(ls)) ==> ls.len()
                    == count && is_at(b@, p0, ser_lines_elems(ls)),
        decreases count - i,
    {
        match dec_string(b, p) {
            Some((s, p2)) => {
                let ghost old_out = out@;
                out.push(s);
                proof {
                    lemma_ser_lines_snoc(old_out, out@[out@.len() - 1]);
                    assert(out@ =~= old_out.push(out@[out@.len() - 1]));
                    assert(b@.subrange(p0, p2 as int) =~= b@.subrange(p0, p as int) + b@.subrange(
                        p as int,
                        p2 as int,
                    ));
                }
                p = p2;
            },
            None => {
                proof {
                    assert forall|ls: Seq<String>|
                        bounded_lines(ls) implies !is_at(
                        b@,
                        pos as int,
                        #[trigger] ser_lines(ls),
                    ) by {
                        if is_at(b@, pos as int, ser_lines(ls)) {
                            lemma_ser_lines_elems_split(ls, i as int);
                            lemma_is_at_concat(
                                b@,
                                p0,
                                ser_lines_elems(ls.take(i as int)),
                                ser_lines_elems(ls.skip(i as int)),
                            );
                            assert forall|j: int|
                                0 <= j < ls.take(i as int).len() implies bounded_str(
                                #[trigger] ls.take(i as int)[j]@,
                            ) by {
                                assert(ls.take(i as int)[j] == ls[j]);
                            }
                            assert(is_at(b@, p0, ser_lines_elems(out@)));
                            lemma_psf_lines_elems(b@, p0, ls.take(i as int), out@);
                            let rest = ls.skip(i as int);
                            assert(rest.len() > 0);
                            assert(ser_lines_elems(rest) == ser_string(rest[0]@)
                                + ser_lines_elems(rest.skip(1)));
                            lemma_is_at_concat(
                                b@,
                                p as int,
                                ser_string(rest[0]@),
                                ser_lines_elems(rest.skip(1)),
                            );
                            assert(bounded_str(rest[0]@)) by {
                                assert(rest[0] == ls[i as int]);
                            }
                        }
                    }
                }
                return None;
            },
        }
        i = i + 1;
    }
    proof {
        lemma_ser_unat_len(count as nat, 8);
        assert(ser_lines(out@) =~= ser_unat(out@.len(), 8) + ser_lines_elems(out@));
        assert(b@.subrange(pos as int, pos + 8) == ser_unat(count as nat, 8));
        assert(b@.subrange(pos as int, p as int) =~= b@.subrange(pos as int, pos + 8)
            + b@.subrange(p0, p as int));
        assert(b@.subrange(pos as int, pos + ser_lines(out@).len()) == ser_lines(out@));
        assert(is_at(b@, pos as int, ser_lines(out@)));
    }
    Some((out, p))
}

fn dec_render(b: &[u8], pos: usize) -> (r: Option<(RenderData, usize)>)
    ensures
        match r {
            Some(v) => {
                &&& bounded_lines(v.0.lines@)
                &&& is_at(b@, pos as int, ser_render(v.0))
                &&& v.1 == pos + ser_render(v.0).len()
            },
            None => forall|x: RenderData|
                bounded_lines(x.lines@) ==> !is_at(b@, pos as int, #[trigger] ser_render(x)),
        },
{
    proof {
        assert forall|x: RenderData|
            is_at(b@, pos as int, #[trigger] ser_render(x)) implies is_at(
            b@,
            pos as int,
            ser_lines(x.lines@),
        ) && is_at(
            b@,
            pos + ser_lines(x.lines@).len(),
            ser_position(x.cursor) + ser_unat(x.viewport_start as nat, 8) + ser_unat(
                x.viewport_height as nat,
                8,
            ),
        ) by {
            let tail = ser_position(x.cursor) + ser_unat(x.viewport_start as nat, 8) + ser_unat(
                x.viewport_height as nat,
                8,
            );
            assert(ser_render(x) =~= ser_lines(x.lines@) + tail);
            lemma_is_at_concat(b@, pos as int, ser_lines(x.lines@), tail);
        }
    }
    let (lines, p1) = match dec_lines(b, pos) {
        None => {
            return None;
        },
        Some(v) => v,
    };
    proof {
        assert forall|x: RenderData|
            bounded_lines(x.lines@) && is_at(b@, pos as int, #[trigger] ser_render(x)) implies
        is_at(b@, p1 as int, ser_position(x.cursor)) && is_at(
            b@,
            p1 + 16,
            ser_unat(x.viewport_start as nat, 8),
        ) && is_at(b@, p1 + 24, ser_unat(x.viewport_height as nat, 8)) by {
            lemma_psf_lines(b@, pos as int, x.lines@, lines@);
            let tail = ser_position(x.cursor) + ser_unat(x.viewport_start as nat, 8) + ser_unat(
                x.viewport_height as nat,
                8,
            );
            lemma_ser_unat_len(x.cursor.line as nat, 8);
            lemma_ser_unat_len(x.cursor.column as nat, 8);
            lemma_ser_unat_len(x.viewport_start as nat, 8);
            lemma_ser_unat_len(x.viewport_height as nat, 8);
            lemma_is_at_concat(
                b@,
                p1 as int,
                ser_position(x.cursor) + ser_unat(x.viewport_start as nat, 8),
                ser_unat(x.viewport_height as nat, 8),
            );
            assert(tail =~= (ser_position(x.cursor) + ser_unat(x.viewport_start as nat, 8))
                + ser_unat(x.viewport_height as nat, 8));
            lemma_is_at_concat(
                b@,
                p1 as int,
                ser_position(x.cursor),
                ser_unat(x.viewport_start as nat, 8),
            );
        }
    }
    let (cursor, p2) = match dec_position(b, p1) {
        None => {
            return None;
        },
        Some(v) => v,
    };
    let (viewport_start, p3) = match dec_usize(b, p2) {
        None => {
            return None;
        },
        Some(v) => v,
    };
    let (viewport_height, p4) = match dec_usize(b, p3) {
        None => {
            return None;
        },
        Some(v) => v,
    };
    let rd = RenderData { lines, cursor, viewport_start, viewport_height };
    proof {
        lemma_ser_unat_len(viewport_start as nat, 8);
        lemma_ser_unat_len(viewport_height as nat, 8);
        lemma_ser_unat_len(cursor.line as nat, 8);
        lemma_ser_unat_len(cursor.column as nat, 8);
        assert(b@.subrange(pos as int, p4 as int) =~= b@.subrange(pos as int, p1 as int)
            + b@.subrange(p1 as int, p2 as int) + b@.subrange(p2 as int, p3 as int) + b@.subrange(
            p3 as int,
            p4 as int,
        ));
        assert(ser_render(rd) =~= ser_lines(rd.lines@) + ser_position(rd.cursor) + ser_unat(
            rd.viewport_start as nat,
            8,
        ) + ser_unat(rd.viewport_height as nat, 8));
        assert(b@.subrange(pos as int, pos + ser_render(rd).len()) == ser_render(rd));
        assert(is_at(b@, pos as int, ser_render(rd)));
    }
    Some((rd, p4))
}

/// The tail of an info record after its cursor position, as one byte
/// sequence.
pub open spec fn ser_info_tail(x: EditorInfo) -> Seq<u8> {
    ser_opt_string(x.filepath.deep_view()) + (ser_opt_string(x.name.deep_view()) + (ser_bool(
        x.modified,
    ) + (ser_unat(x.line_count as nat, 8) + ser_unat(x.char_count as nat, 8))))
}

#[verifier::rlimit(60)]
fn dec_info(b: &[u8], pos: usize) -> (r: Option<(EditorInfo, usize)>)
    ensures
        match r {
            Some(v) => {
                &&& bounded_opt_str(v.0.filepath.deep_view())
                &&& bounded_opt_str(v.0.name.deep_view())
                &&& is_at(b@, pos as int, ser_info(v.0))
                &&& v.1 == pos + ser_info(v.0).len()
            },
            None => forall|x: EditorInfo|
                bounded_opt_str(x.filepath.deep_view()) && bounded_opt_str(x.name.deep_view())
                    ==> !is_at(b@, pos as int, #[trigger] ser_info(x)),
        },
{
    proof {
        assert forall|x: EditorInfo|
            is_at(b@, pos as int, #[trigger] ser_info(x)) implies is_at(
            b@,
            pos as int,
            ser_position(x.cursor),
        ) && is_at(b@, pos + 16, ser_opt_string(x.filepath.deep_view())) && is_at(
            b@,
            pos + 16 + ser_opt_string(x.filepath.deep_view()).len(),
            ser_opt_string(x.name.deep_view()),
        ) && is_at(
            b@,
            pos + 16 + ser_opt_string(x.filepath.deep_view()).len() + ser_opt_string(
                x.name.deep_view(),
            ).len(),
            ser_bool(x.modified),
        ) && is_at(
            b@,
            pos + 17 + ser_opt_string(x.filepath.deep_view()).len() + ser_opt_string(
                x.name.deep_view(),
            ).len(),
            ser_unat(x.line_count as nat, 8),
        ) && is_at(
            b@,
            pos + 25 + ser_opt_string(x.filepath.deep_view()).len() + ser_opt_string(
                x.name.deep_view(),
            ).len(),
            ser_unat(x.char_count as nat, 8),
        ) by {
            let t_fp = ser_opt_string(x.filepath.deep_view());
            let t_nm = ser_opt_string(x.name.deep_view());
            let t_b = ser_bool(x.modified);
            let t_lc = ser_unat(x.line_count as nat, 8);
            let t_cc = ser_unat(x.char_count as nat, 8);
            lemma_ser_unat_len(x.cursor.line as nat, 8);
            lemma_ser_unat_len(x.cursor.column as nat, 8);
            lemma_ser_unat_len(x.line_count as nat, 8);
            lemma_ser_unat_len(x.char_count as nat, 8);
            assert(ser_info(x) =~= ser_position(x.cursor) + (t_fp + (t_nm + (t_b + (t_lc
                + t_cc)))));
            lemma_is_at_concat(b@, pos as int, ser_position(x.cursor), t_fp + (t_nm + (t_b + (t_lc
                + t_cc))));
            lemma_is_at_concat(b@, pos + 16, t_fp, t_nm + (t_b + (t_lc + t_cc)));
            lemma_is_at_concat(b@, pos + 16 + t_fp.len(), t_nm, t_b + (t_lc + t_cc));
            lemma_is_at_concat(b@, pos + 16 + t_fp.len() + t_nm.len(), t_b, t_lc + t_cc);
            lemma_is_at_concat(b@, pos + 17 + t_fp.len() + t_nm.len(), t_lc, t_cc);
        }
    }
    let (cursor, p1) = match dec_position(b, pos) {
        None => {
            return None;
        },
        Some(v) => v,
    };
    let (filepath, p2) = match dec_opt_string(b, p1) {
        None => {
            return None;
        },
        Some(v) => v,
    };
    proof {
        assert forall|x: EditorInfo|
            bounded_opt_str(x.filepath.deep_view()) && bounded_opt_str(x.name.deep_view())
                && is_at(b@, pos as int, #[trigger] ser_info(x)) implies ser_opt_string(
            x.filepath.deep_view(),
        ).len() == p2 - p1 by {
            lemma_psf_opt_string(b@, p1 as int, x.filepath.deep_view(), filepath.deep_view());
        }
    }
    let (name, p3) = match dec_opt_string(b, p2) {
        None => {
            return None;
        },
        Some(v) => v,
    };
    proof {
        assert forall|x: EditorInfo|
            bounded_opt_str(x.filepath.deep_view()) && bounded_opt_str(x.name.deep_view())
                && is_at(b@, pos as int, #[trigger] ser_info(x)) implies ser_opt_string(
            x.name.deep_view(),
        ).len() == p3 - p2 by {
            lemma_psf_opt_string(b@, p2 as int, x.name.deep_view(), name.deep_view());
        }
    }
    let (modified, p4) = match dec_bool(b, p3) {
        None => {
            return None;
        },
        Some(v) => v,
    };
    let (line_count, p5) = match dec_usize(b, p4) {
        None => {
            return None;
        },
        Some(v) => v,
    };
    let (char_count, p6) = match dec_usize(b, p5) {
        None => {
            return None;
        },
        Some(v) => v,
    };
    let info = EditorInfo { cursor, filepath, name, modified, line_count, char_count };
    proof {
        lemma_ser_unat_len(cursor.line as nat, 8);
        lemma_ser_unat_len(cursor.column as nat, 8);
        lemma_ser_unat_len(line_count as nat, 8);
        lemma_ser_unat_len(char_count as nat, 8);
        assert(b@.subrange(pos as int, p6 as int) =~= b@.subrange(pos as int, p1 as int)
            + b@.subrange(p1 as int, p2 as int) + b@.subrange(p2 as int, p3 as int) + b@.subrange(
            p3 as int,
            p4 as int,
        ) + b@.subrange(p4 as int, p5 as int) + b@.subrange(p5 as int, p6 as int));
        assert(ser_info(info) =~= ser_position(info.cursor) + ser_opt_string(
            info.filepath.deep_view(),
        ) + ser_opt_string(info.name.deep_view()) + ser_bool(info.modified) + ser_unat(
            info.line_count as nat,
            8,
        ) + ser_unat(info.char_count as nat, 8));
        assert(b@.subrange(pos as int, pos + ser_info(info).len()) == ser_info(info));
        assert(is_at(b@, pos as int, ser_info(info)));
    }
    Some((info, p6))
}

impl Message {
    /// Read a message back from a payload: succeeds exactly when some
    /// message's serialization starts the bytes, and the returned message
    /// serializes back to that prefix; trailing bytes are ignored.
    #[verifier::rlimit(60)]
    pub fn decode(bytes: &[u8]) -> (r: Result<Message, DecodeError>)
        ensures
            match r {
                Ok(m) => bounded_message(m) && is_at(bytes@, 0, ser_message(m)),
                Err(_) => forall|m: Message|
                    bounded_message(m) ==> !is_at(bytes@, 0, #[trigger] ser_message(m)),
            },
    {
        proof {
            assert forall|m: Message|
                is_at(bytes@, 0, #[trigger] ser_message(m)) implies 0 < bytes@.len() && bytes@[0]
                == message_tag(m) by {
                lemma_message_shape(m);
                assert(bytes@.subrange(0, ser_message(m).len() as int)[0] == bytes@[0]);
            }
        }
        let tag = match dec_u8(bytes, 0) {
            None => {
                return Err(DecodeError::Malformed);
            },
            Some(v) => v.0,
        };
        if tag == 0 {
            match dec_key(bytes, 1) {
                Some((key, _p)) => {
                    proof {
                        assert(bytes@.subrange(0, 1) =~= seq![0u8]);
                        lemma_is_at_concat(bytes@, 0, seq![0u8], ser_key(key));
                    }
                    Ok(Message::KeyPress { key })
                },
                None => {
                    proof {
                        assert forall|m: Message|
                            bounded_message(m) implies !is_at(
                            bytes@,
                            0,
                            #[trigger] ser_message(m),
                        ) by {
                            if is_at(bytes@, 0, ser_message(m)) {
                                match m {
                                    Message::KeyPress { key } => {
                                        lemma_is_at_concat(bytes@, 0, seq![0u8], ser_key(key));
                                    },
                                    _ => {},
                                }
                            }
                        }
                    }
                    Err(DecodeError::Malformed)
                },
            }
        } else if tag == 1 {
            proof {
                assert(bytes@.subrange(0, 1) =~= seq![1u8]);
            }
            Ok(Message::ClientStart)
        } else if tag == 2 {
            proof {
                assert(bytes@.subrange(0, 1) =~= seq![2u8]);
            }
            Ok(Message::ServerStatusCheck)
        } else if tag == 3 {
            proof {
                assert(bytes@.subrange(0, 1) =~= seq![3u8]);
            }
            Ok(Message::ServerStatusOk)
        } else if tag == 4 {
            proof {
                assert forall|m: Message|
                    bounded_message(m) && is_at(bytes@, 0, #[trigger] ser_message(m))
                    && m is StateUpdate implies is_at(
                    bytes@,
                    1,
                    ser_events(m->StateUpdate_events@),
                ) by {
                    if let Message::StateUpdate { events, render_data, info } = m {
                        let rest = ser_render(render_data) + ser_info(info);
                        assert(ser_message(m) =~= seq![4u8] + (ser_events(events@) + rest));
                        lemma_is_at_concat(bytes@, 0, seq![4u8], ser_events(events@) + rest);
                        lemma_is_at_concat(bytes@, 1, ser_events(events@), rest);
                    }
                }
            }
            let (events, p1) = match dec_events(bytes, 1) {
                None => {
                    proof {
                        assert forall|m: Message|
                            bounded_message(m) implies !is_at(
                            bytes@,
                            0,
                            #[trigger] ser_message(m),
                        ) by {}
                    }
                    return Err(DecodeError::Malformed);
                },
                Some(v) => v,
            };
            proof {
                assert forall|m: Message|
                    bounded_message(m) && is_at(bytes@, 0, #[trigger] ser_message(m))
                    && m is StateUpdate implies is_at(
                    bytes@,
                    p1 as int,
                    ser_render(m->StateUpdate_render_data),
                ) && is_at(
                    bytes@,
                    p1 + ser_render(m->StateUpdate_render_data).len(),
                    ser_info(m->StateUpdate_info),
                ) by {
                    if let Message::StateUpdate { events: ev2, render_data, info } = m {
                        let rest = ser_render(render_data) + ser_info(info);
                        assert(ser_message(m) =~= seq![4u8] + (ser_events(ev2@) + rest));
                        lemma_is_at_concat(bytes@, 0, seq![4u8], ser_events(ev2@) + rest);
                        lemma_is_at_concat(bytes@, 1, ser_events(ev2@), rest);
                        lemma_psf_events(bytes@, 1, ev2@, events@);
                        lemma_is_at_concat(
                            bytes@,
                            p1 as int,
                            ser_render(render_data),
                            ser_info(info),
                        );
                    }
                }
            }
            let (render_data, p2) = match dec_render(bytes, p1) {
                None => {
                    return Err(DecodeError::Malformed);
                },
                Some(v) => v,
            };
            proof {
                assert forall|m: Message|
                    bounded_message(m) && is_at(bytes@, 0, #[trigger] ser_message(m))
                    && m is StateUpdate implies is_at(
                    bytes@,
                    p2 as int,
                    ser_info(m->StateUpdate_info),
                ) by {
                    if let Message::StateUpdate { events: ev2, render_data: rd2, info } = m {
                        lemma_psf_render(bytes@, p1 as int, rd2, render_data);
                    }
                }
            }
            let (info, _p3) = match dec_info(bytes, p2) {
                None => {
                    return Err(DecodeError::Malformed);
                },
                Some(v) => v,
            };
            let ghost es = events@;
            let ghost rd = render_data;
            let ghost inf = info;
            let m = Message::StateUpdate { events, render_data, info };
            proof {
                assert(bytes@.subrange(0, 1) =~= seq![4u8]);
                assert(ser_message(m) =~= seq![4u8] + ser_events(es) + ser_render(rd) + ser_info(
                    inf,
                ));
                assert(bytes@.subrange(0, ser_message(m).len() as int) =~= bytes@.subrange(0, 1)
                    + bytes@.subrange(1, p1 as int) + bytes@.subrange(p1 as int, p2 as int)
                    + bytes@.subrange(p2 as int, p2 + ser_info(inf).len()));
                assert(is_at(bytes@, 0, ser_message(m)));
            }
            Ok(m)
        } else {
            Err(DecodeError::Malformed)
        }
    }
}

impl Message {
    /// Frame the message for the wire: a 4-byte big-endian length prefix
    /// followed by the serialized message, which must fit that prefix.
    pub fn encode(&self) -> (r: Result<Vec<u8>, EncodeError>)
        ensures
            match r {
                Ok(out) => ser_message(*self).len() <= u32::MAX && out@ == ser_unat(
                    ser_message(*self).len(),
                    4,
                ) + ser_message(*self),
                Err(_) => ser_message(*self).len() > u32::MAX,
            },
    {
        let mut body: Vec<u8> = Vec::new();
        enc_message(&mut body, self);
        proof {
            assert(Seq::<u8>::empty() + ser_message(*self) =~= ser_message(*self));
        }
        if body.len() as u64 > u32::MAX as u64 {
            return Err(EncodeError::TooLarge);
        }
        let mut out: Vec<u8> = Vec::new();
        enc_unat(&mut out, body.len() as u64, 4);
        out.append(&mut body);
        proof {
            assert(Seq::<u8>::empty() + ser_unat(ser_message(*self).len(), 4) + ser_message(*self)
                =~= ser_unat(ser_message(*self).len(), 4) + ser_message(*self));
        }
        Ok(out)
    }
}

/// What a read of the 4-byte frame length prefix means.
#[derive(Debug, Clone, Copy, PartialEq, Eq)]
pub enum FrameRead {
    /// Zero bytes arrived: the peer closed cleanly; no error.
    Disconnected,
    /// The prefix stopped mid-value: fatal for this connection.
    Truncated,
    /// A full prefix naming the length of the frame body to read.
    Body(u32),
}

/// Classify what a read of the length prefix returned: an immediate end of
/// stream is a clean disconnect, a partial prefix is fatal, and a full
/// prefix names the body length.
pub fn classify_prefix_read(buf: &[u8]) -> (r: FrameRead)
    ensures
        buf@.len() == 0 ==> r is Disconnected,
        0 < buf@.len() < 4 ==> r is Truncated,
        buf@.len() >= 4 ==> (r matches FrameRead::Body(n) && ser_unat(n as nat, 4)
            == buf@.subrange(0, 4)),
{
    if buf.len() == 0 {
        FrameRead::Disconnected
    } else if buf.len() < 4 {
        FrameRead::Truncated
    } else {
        match dec_unat(buf, 0, 4) {
            Some((v, _)) => {
                proof {
                    reveal_with_fuel(pow256, 5);
                }
                FrameRead::Body(v as u32)
            },
            None => {
                proof {
                    assert(false);
                }
                FrameRead::Truncated
            },
        }
    }
}

/// `out` is the message `m` framed for the wire.
pub open spec fn framed(out: Seq<u8>, m: Message) -> bool {
    out == ser_unat(ser_message(m).len(), 4) + ser_message(m)
}

/// `out` is some state-update message framed for the wire.
pub open spec fn is_framed_state_update(out: Seq<u8>) -> bool {
    exists|m: Message| #[trigger] framed(out, m) && m is StateUpdate
}

/// The first line the server's fixed 24-line viewport shows: the active
/// view's scroll line, held back from the very top of the address space so
/// the window fits.
pub open spec fn snapshot_start(ed: Editor) -> int {
    if ed.cur_view().scroll_line_spec() <= usize::MAX - 24 {
        ed.cur_view().scroll_line_spec() as int
    } else {
        usize::MAX - 24
    }
}

/// `rd` is the render snapshot of `ed` that the server sends: the lines of
/// the fixed viewport, the clamped cursor's position, and the view's top
/// scroll line.
pub open spec fn render_matches(rd: RenderData, ed: Editor) -> bool {
    let txt = ed.cur_buf().text();
    let start = snapshot_start(ed);
    &&& rd.lines@.len() == (if start < line_count(txt) {
        (if start + 24 <= line_count(txt) {
            24int
        } else {
            line_count(txt) - start
        })
    } else {
        0
    })
    &&& (forall|i: int|
        0 <= i < rd.lines@.len() ==> rd.lines@[i]@ == crate::textspec::line_display(
            txt,
            start + i,
        ))
    &&& rd.cursor.line == line_idx(txt, ed.clamped_cursor())
    &&& rd.cursor.column == col_of(txt, ed.clamped_cursor())
    &&& rd.viewport_start == ed.cur_view().scroll_line_spec()
    &&& rd.viewport_height == 24
}

/// `i` is the info snapshot of `ed`: cursor position, path, name, modified
/// flag and size of the active buffer.
pub open spec fn info_matches(i: EditorInfo, ed: Editor) -> bool {
    let txt = ed.cur_buf().text();
    &&& i.cursor.line == line_idx(txt, ed.clamped_cursor())
    &&& i.cursor.column == col_of(txt, ed.clamped_cursor())
    &&& i.filepath.deep_view() == ed.cur_buf().path_spec()
    &&& i.name.deep_view() == ed.cur_buf().name_spec()
    &&& i.modified == ed.cur_buf().modified_spec()
    &&& i.line_count == line_count(txt)
    &&& i.char_count == txt.len()
}

/// `m` is the state update the server sends for editor state `ed` carrying
/// exactly the events `events`.
pub open spec fn state_update_for(m: Message, ed: Editor, events: Seq<EditorEvent>) -> bool {
    &&& m is StateUpdate
    &&& m->StateUpdate_events@ == events
    &&& render_matches(m->StateUpdate_render_data, ed)
    &&& info_matches(m->StateUpdate_info, ed)
}

/// `out` frames a state update for editor state `ed` carrying the events
/// `events`.
pub open spec fn snapshot_response(out: Seq<u8>, ed: Editor, events: Seq<EditorEvent>) -> bool {
    exists|m: Message| #[trigger] framed(out, m) && state_update_for(m, ed, events)
}

/// No state update for editor state `ed` carrying `events` fits the 32-bit
/// frame length prefix; only then may a snapshot response be withheld.
pub open spec fn snapshot_too_large(ed: Editor, events: Seq<EditorEvent>) -> bool {
    forall|m: Message| #[trigger] state_update_for(m, ed, events) ==> ser_message(m).len()
        > u32::MAX
}

/// Lists of lines with the same characters serialize identically, whatever
/// strings hold them.
proof fn lemma_ser_lines_elems_by_views(xs: Seq<String>, ys: Seq<String>)
    requires
        xs.len() == ys.len(),
        forall|i: int| 0 <= i < xs.len() ==> xs[i]@ == #[trigger] ys[i]@,
    ensures
        ser_lines_elems(xs) == ser_lines_elems(ys),
    decreases xs.len(),
{
    if xs.len() > 0 {
        assert(xs[0]@ == ys[0]@);
        assert forall|i: int| 0 <= i < xs.skip(1).len() implies xs.skip(1)[i]@ == #[trigger] ys.skip(
            1,
        )[i]@ by {
            assert(xs.skip(1)[i] == xs[i + 1]);
            assert(ys.skip(1)[i] == ys[i + 1]);
        }
        lemma_ser_lines_elems_by_views(xs.skip(1), ys.skip(1));
    }
}

/// Two state updates for one editor state carrying the same events
/// serialize identically: the serialization depends only on the fields'
/// characters and numbers, which the state pins down.
proof fn lemma_snapshot_bytes_determined(
    ed: Editor,
    events: Seq<EditorEvent>,
    m1: Message,
    m2: Message,
)
    requires
        state_update_for(m1, ed, events),
        state_update_for(m2, ed, events),
    ensures
        ser_message(m1) == ser_message(m2),
{
    let rd1 = m1->StateUpdate_render_data;
    let rd2 = m2->StateUpdate_render_data;
    let i1 = m1->StateUpdate_info;
    let i2 = m2->StateUpdate_info;
    assert(ser_events(m1->StateUpdate_events@) == ser_events(m2->StateUpdate_events@));
    assert forall|i: int|
        0 <= i < rd1.lines@.len() implies rd1.lines@[i]@ == #[trigger] (rd2.lines@[i]@) by {
        assert(rd1.lines@[i]@ == crate::textspec::line_display(
            ed.cur_buf().text(),
            snapshot_start(ed) + i,
        ));
    }
    lemma_ser_lines_elems_by_views(rd1.lines@, rd2.lines@);
    assert(ser_lines(rd1.lines@) == ser_lines(rd2.lines@));
    assert(rd1.cursor == rd2.cursor);
    assert(ser_render(rd1) == ser_render(rd2));
    assert(i1.cursor == i2.cursor);
    assert(ser_info(i1) == ser_info(i2));
}

/// Why a frame could not be answered.
#[derive(Debug, Clone, Copy, PartialEq, Eq)]
pub enum ProtocolError {
    /// No message's serialization starts the payload; fatal for the
    /// connection.
    Malformed,
    /// The response did not fit a frame.
    TooLarge,
}

/// What the server should do with a frame it processed.
#[derive(Debug)]
pub enum FrameStep {
    /// Send this response frame back.
    Respond(Vec<u8>),
    /// Perform the file-system request, report it through the editor's
    /// finish functions, and answer with a state update holding `pending`
    /// plus the events the report returns.
    NeedIo { io: IoRequest, pending: Vec<EditorEvent> },
    /// The message needs no response.
    NoResponse,
}

/// Equal key serializations come from equal keys.
proof fn lemma_ser_key_injective(k1: EditorKey, k2: EditorKey)
    requires
        ser_key(k1) == ser_key(k2),
    ensures
        k1 == k2,
{
    lemma_keycode_shape(k1.code);
    lemma_keycode_shape(k2.code);
    let s1 = ser_key(k1);
    assert(s1[0] == ser_keycode(k1.code)[0]);
    assert(s1[0] == ser_keycode(k2.code)[0]);
    assert(keycode_tag(k1.code) == keycode_tag(k2.code));
    assert(ser_keycode(k1.code).len() == ser_keycode(k2.code).len());
    assert forall|j: int| 0 <= j < ser_keycode(k1.code).len() implies ser_keycode(k1.code)[j]
        == ser_keycode(k2.code)[j] by {
        assert(s1[j] == ser_keycode(k1.code)[j]);
        assert(s1[j] == ser_keycode(k2.code)[j]);
    }
    assert(ser_keycode(k1.code) =~= ser_keycode(k2.code));
    match (k1.code, k2.code) {
        (KeyCode::Char(c1), KeyCode::Char(c2)) => {
            assert(ser_char(c1) =~= ser_char(c2)) by {
                assert forall|j: int| 0 <= j < 4 implies ser_char(c1)[j] == ser_char(c2)[j] by {
                    lemma_ser_unat_len((c1 as u32) as nat, 4);
                    lemma_ser_unat_len((c2 as u32) as nat, 4);
                    assert(ser_keycode(k1.code)[1 + j] == ser_char(c1)[j]);
                    assert(ser_keycode(k2.code)[1 + j] == ser_char(c2)[j]);
                }
            }
            lemma_char_bound(c1);
            lemma_char_bound(c2);
            lemma_ser_unat_injective((c1 as u32) as nat, (c2 as u32) as nat, 4);
            assert(c1 as u32 == c2 as u32);
            vstd::utf8::char_u32_cast(c1, c1 as u32);
            vstd::utf8::char_u32_cast(c2, c2 as u32);
            assert(c1 == c2);
        },
        (KeyCode::F(n1), KeyCode::F(n2)) => {
            assert(seq![14u8, n1][1] == n1);
            assert(seq![14u8, n2][1] == n2);
        },
        _ => {},
    }
    let b1 = s1[s1.len() - 1];
    assert(b1 == mods_byte(k1.modifiers));
    assert(b1 == mods_byte(k2.modifiers));
    lemma_mods_byte_injective(k1.modifiers, k2.modifiers);
}

/// Equal flag bytes come from equal modifier sets.
proof fn lemma_mods_byte_injective(m1: KeyModifiers, m2: KeyModifiers)
    requires
        mods_byte(m1) == mods_byte(m2),
    ensures
        m1 == m2,
{
}

/// The answer a key press that produced `events` and asked for `io` gets:
/// pending file work, or a framed snapshot of the state after the step
/// carrying exactly those events; the snapshot is withheld only when no
/// such snapshot fits a frame.
pub open spec fn key_answer(
    post: Editor,
    events: Seq<EditorEvent>,
    io: Option<IoRequest>,
    r: Result<FrameStep, ProtocolError>,
) -> bool {
    match io {
        Some(req) => (r matches Ok(FrameStep::NeedIo { io: req2, pending }) && req2 == req
            && pending@ == events),
        None => (r matches Ok(FrameStep::Respond(out)) && snapshot_response(out@, post, events))
            || (r matches Err(e) && e is TooLarge && snapshot_too_large(post, events)),
    }
}

/// The editor's transition and response for a key press carried by a
/// frame: an immediate signal or an ignored key leaves the state alone and
/// is answered with a snapshot carrying just that signal; a command key
/// performs a legal command step and is answered per [`key_answer`].
pub open spec fn frame_key_step(
    pre: Editor,
    key: EditorKey,
    post: Editor,
    r: Result<FrameStep, ProtocolError>,
) -> bool {
    match crate::editor::key_action_spec(key) {
        KeyAction::Cmd(cm) => exists|events: Seq<EditorEvent>, io: Option<IoRequest>|
            {
                &&& #[trigger] crate::editor::step_spec(pre, cm, post, events, io)
                &&& key_answer(post, events, io, r)
            },
        KeyAction::Shutdown => post == pre && key_answer(
            post,
            seq![EditorEvent::Shutdown],
            None,
            r,
        ),
        KeyAction::Redraw => post == pre && {
            exists|events: Seq<EditorEvent>|
                events.len() == 1 && events[0] is Redraw && #[trigger] key_answer(
                    post,
                    events,
                    None,
                    r,
                )
        },
        KeyAction::Ignore => post == pre && key_answer(post, Seq::<EditorEvent>::empty(), None, r),
    }
}

/// A key press answered according to the events and file-system request it
/// produced satisfies the frame step relation.
proof fn lemma_frame_key_answered(
    pre: Editor,
    key: EditorKey,
    post: Editor,
    ev: Seq<EditorEvent>,
    io: Option<IoRequest>,
    r: Result<FrameStep, ProtocolError>,
)
    requires
        key_answer(post, ev, io, r),
        match crate::editor::key_action_spec(key) {
            KeyAction::Shutdown => post == pre && ev.len() == 1 && ev[0] is Shutdown
                && io is None,
            KeyAction::Redraw => post == pre && ev.len() == 1 && ev[0] is Redraw && io is None,
            KeyAction::Cmd(cm) => crate::editor::step_spec(pre, cm, post, ev, io),
            KeyAction::Ignore => post == pre && ev.len() == 0 && io is None,
        },
    ensures
        frame_key_step(pre, key, post, r),
{
    match crate::editor::key_action_spec(key) {
        KeyAction::Shutdown => {
            assert(ev =~= seq![EditorEvent::Shutdown]);
        },
        KeyAction::Redraw => {
            assert(ev.len() == 1 && ev[0] is Redraw && key_answer(post, ev, None, r));
        },
        KeyAction::Ignore => {
            assert(ev =~= Seq::<EditorEvent>::empty());
        },
        KeyAction::Cmd(cm) => {
            assert(crate::editor::step_spec(pre, cm, post, ev, io) && key_answer(
                post,
                ev,
                io,
                r,
            ));
        },
    }
}

/// Encode a state update for the current editor state carrying `events`:
/// the render snapshot starts at the current view's scroll line and shows
/// up to 24 lines.
pub fn build_state_update(editor: &Editor, events: Vec<EditorEvent>) -> (r: Result<
    Vec<u8>,
    ProtocolError,
>)
    requires
        editor.wf(),
    ensures
        r matches Ok(out) ==> snapshot_response(out@, *editor, events@) && is_framed_state_update(
            out@,
        ),
        r matches Err(e) ==> e is TooLarge && snapshot_too_large(*editor, events@),
{
    let ghost ev = events@;
    let viewport_height: usize = 24;
    let vs = match editor.get_current_view() {
        Some(v) => v.scroll_line(),
        None => 0,
    };
    let viewport_start = if vs <= usize::MAX - 24 {
        vs
    } else {
        usize::MAX - 24
    };
    let render_data = editor.get_render_data(viewport_start, viewport_height);
    let info = editor.get_info();
    let m = Message::StateUpdate { events, render_data, info };
    proof {
        assert(state_update_for(m, *editor, ev));
    }
    match m.encode() {
        Ok(out) => {
            proof {
                assert(framed(out@, m));
                assert(snapshot_response(out@, *editor, ev));
                assert(is_framed_state_update(out@));
            }
            Ok(out)
        },
        Err(_) => {
            proof {
                assert forall|m2: Message| #[trigger] state_update_for(m2, *editor, ev) implies
                    ser_message(m2).len() > u32::MAX by {
                    lemma_snapshot_bytes_determined(*editor, ev, m, m2);
                }
            }
            Err(ProtocolError::TooLarge)
        },
    }
}

/// Whether a payload is the client-start handshake, which only asks for a
/// snapshot: a server may serve it under shared access, since it mutates
/// nothing.
pub fn is_snapshot_request(payload: &[u8]) -> (r: bool)
    ensures
        r == is_at(payload@, 0, ser_message(Message::ClientStart)),
{
    if payload.len() >= 1 && payload[0] == 1u8 {
        proof {
            assert(payload@.subrange(0, 1) =~= seq![1u8]);
        }
        true
    } else {
        proof {
            if is_at(payload@, 0, ser_message(Message::ClientStart)) {
                assert(payload@.subrange(0, 1)[0] == payload@[0]);
            }
        }
        false
    }
}

/// Answer a handshake from the current state alone: a framed state update
/// with no events.
pub fn snapshot_frame(editor: &Editor) -> (r: Result<Vec<u8>, ProtocolError>)
    requires
        editor.wf(),
    ensures
        r matches Ok(out) ==> snapshot_response(out@, *editor, Seq::<EditorEvent>::empty()),
        r matches Err(e) ==> e is TooLarge && snapshot_too_large(
            *editor,
            Seq::<EditorEvent>::empty(),
        ),
{
    let empty: Vec<EditorEvent> = Vec::new();
    proof {
        assert(empty@ =~= Seq::<EditorEvent>::empty());
    }
    build_state_update(editor, empty)
}

/// Process one decoded frame against the shared editor: apply a key press,
/// answer a handshake with a fresh snapshot, answer a liveness probe, and
/// ignore server-to-client messages.  A payload no message serializes to is
/// fatal for the connection and leaves the editor untouched.
#[verifier::rlimit(60)]
pub fn process_frame(editor: &mut Editor, payload: &[u8]) -> (r: Result<
    FrameStep,
    ProtocolError,
>)
    requires
        old(editor).wf(),
    ensures
        final(editor).wf(),
        r matches Err(ProtocolError::Malformed) ==> *final(editor) == *old(editor) && (
        forall|m: Message| bounded_message(m) ==> !is_at(payload@, 0, #[trigger] ser_message(m))),
        (forall|m: Message| bounded_message(m) ==> !is_at(payload@, 0, #[trigger] ser_message(m)))
            ==> (r matches Err(ProtocolError::Malformed) && *final(editor) == *old(editor)),
        forall|m: Message|
            (bounded_message(m) && m is StateUpdate && is_at(
                payload@,
                0,
                #[trigger] ser_message(m),
            )) ==> *final(editor) == *old(editor) && r matches Ok(FrameStep::NoResponse),
        forall|key: EditorKey|
            is_at(payload@, 0, #[trigger] ser_message(Message::KeyPress { key })) ==> frame_key_step(
                *old(editor),
                key,
                *final(editor),
                r,
            ),
        is_at(payload@, 0, ser_message(Message::ClientStart)) ==> *final(editor) == *old(editor)
            && key_answer(*final(editor), Seq::<EditorEvent>::empty(), None, r),
        is_at(payload@, 0, ser_message(Message::ServerStatusCheck)) ==> *final(editor) == *old(
            editor,
        ) && (r matches Ok(FrameStep::Respond(out)) && framed(out@, Message::ServerStatusOk)),
        is_at(payload@, 0, ser_message(Message::ServerStatusOk)) ==> *final(editor) == *old(editor)
            && r matches Ok(FrameStep::NoResponse),
{
    proof {
        lemma_message_shape(Message::ClientStart);
        lemma_message_shape(Message::ServerStatusCheck);
        lemma_message_shape(Message::ServerStatusOk);
        assert forall|m: Message|
            is_at(payload@, 0, #[trigger] ser_message(m)) implies payload@.len() > 0 && payload@[0]
            == message_tag(m) by {
            lemma_message_shape(m);
            assert(payload@.subrange(0, ser_message(m).len() as int)[0] == payload@[0]);
        }
    }
    match Message::decode(payload) {
        Err(_) => Err(ProtocolError::Malformed),
        Ok(msg) => match msg {
            Message::KeyPress { key } => {
                proof {
                    assert forall|key2: EditorKey|
                        is_at(
                            payload@,
                            0,
                            #[trigger] ser_message(Message::KeyPress { key: key2 }),
                        ) implies key2 == key by {
                        lemma_is_at_concat(payload@, 0, seq![0u8], ser_key(key2));
                        lemma_is_at_concat(payload@, 0, seq![0u8], ser_key(key));
                        assert(is_at(payload@, 1, ser_key(key2)));
                        assert(is_at(payload@, 1, ser_key(key)));
                        lemma_keycode_shape(key.code);
                        lemma_keycode_shape(key2.code);
                        assert(ser_key(key).len() == ser_keycode(key.code).len() + 1);
                        assert(ser_key(key2).len() == ser_keycode(key2.code).len() + 1);
                        assert(is_at(payload@, 1, ser_keycode(key.code))) by {
                            lemma_is_at_concat(
                                payload@,
                                1,
                                ser_keycode(key.code),
                                seq![mods_byte(key.modifiers)],
                            );
                        }
                        assert(is_at(payload@, 1, ser_keycode(key2.code))) by {
                            lemma_is_at_concat(
                                payload@,
                                1,
                                ser_keycode(key2.code),
                                seq![mods_byte(key2.modifiers)],
                            );
                        }
                        lemma_psf_keycode(payload@, 1, key.code, key2.code);
                        lemma_psf_fixed(payload@, 1, ser_key(key), ser_key(key2));
                        lemma_ser_key_injective(key, key2);
                    }
                }
                let out = editor.process_key(key);
                let ghost ev = out.events@;
                let ghost gio = out.io;
                match out.io {
                    Some(io) => {
                        let r: Result<FrameStep, ProtocolError> = Ok(
                            FrameStep::NeedIo { io, pending: out.events },
                        );
                        proof {
                            assert(key_answer(*editor, ev, gio, r));
                            lemma_frame_key_answered(*old(editor), key, *editor, ev, gio, r);
                        }
                        r
                    },
                    None => match build_state_update(editor, out.events) {
                        Ok(bytes) => {
                            let r: Result<FrameStep, ProtocolError> = Ok(
                                FrameStep::Respond(bytes),
                            );
                            proof {
                                assert(key_answer(*editor, ev, gio, r));
                                lemma_frame_key_answered(*old(editor), key, *editor, ev, gio, r);
                            }
                            r
                        },
                        Err(e) => {
                            let r: Result<FrameStep, ProtocolError> = Err(e);
                            proof {
                                assert(key_answer(*editor, ev, gio, r));
                                lemma_frame_key_answered(*old(editor), key, *editor, ev, gio, r);
                            }
                            r
                        },
                    },
                }
            },
            Message::ClientStart => {
                let empty: Vec<EditorEvent> = Vec::new();
                proof {
                    assert(empty@ =~= Seq::<EditorEvent>::empty());
                }
                match build_state_update(editor, empty) {
                    Ok(bytes) => Ok(FrameStep::Respond(bytes)),
                    Err(e) => Err(e),
                }
            },
            Message::ServerStatusCheck => {
                match Message::ServerStatusOk.encode() {
                    Ok(bytes) => Ok(FrameStep::Respond(bytes)),
                    Err(_) => {
                        proof {
                            assert(ser_message(Message::ServerStatusOk).len() == 1);
                            assert(false);
                        }
                        Err(ProtocolError::TooLarge)
                    },
                }
            },
            Message::ServerStatusOk => Ok(FrameStep::NoResponse),
            Message::StateUpdate { .. } => Ok(FrameStep::NoResponse),
        },
    }
}

} // verus!
