use vstd::prelude::*;
use crate::{label_bytes, label_from, label_of_bytes, push_label, ButtonLabel, MouseEvent};
use crate::codec::{decode_matches, DecodeError};
use crate::digits::{all_digits, dec_int, dec_nat, digits_val, fmt_i32, fmt_u64, is_digit,
    parse_u64_field, read_u64_field};
use crate::bytes::bytes_eq;
use vstd::slice::slice_subrange;

verus! {

// The structured-text codec: a pretty-printed array of objects, each with
// integer `x` and `y`, an optional string or null `button`, and an integer
// `time`. The decoder is token-based: whitespace between tokens is free,
// the fields come in that order, and a missing or ill-typed field rejects
// the document.

pub open spec fn is_ws(c: u8) -> bool {
    c == 32 || c == 9 || c == 10 || c == 13
}

pub open spec fn skip_ws(b: Seq<u8>) -> Seq<u8>
    decreases b.len(),
{
    if b.len() > 0 && is_ws(b[0]) {
        skip_ws(b.drop_first())
    } else {
        b
    }
}

/// After optional whitespace, the exact token `tok`; gives what follows it.
pub open spec fn expect(b: Seq<u8>, tok: Seq<u8>) -> Option<Seq<u8>> {
    let t = skip_ws(b);
    if tok.len() <= t.len() && t.take(tok.len() as int) == tok {
        Some(t.skip(tok.len() as int))
    } else {
        None
    }
}

/// The longest digit prefix.
pub open spec fn take_digits(b: Seq<u8>) -> Seq<u8>
    decreases b.len(),
{
    if b.len() > 0 && is_digit(b[0]) {
        seq![b[0]] + take_digits(b.drop_first())
    } else {
        Seq::empty()
    }
}

/// The longest prefix free of quotes and escapes: the only string contents
/// the decoder accepts.
pub open spec fn take_plain(b: Seq<u8>) -> Seq<u8>
    decreases b.len(),
{
    if b.len() > 0 && b[0] != 34 && b[0] != 92 {
        seq![b[0]] + take_plain(b.drop_first())
    } else {
        Seq::empty()
    }
}

/// An unsigned integer token in `u64` range.
pub open spec fn parse_u64_tok(b: Seq<u8>) -> Option<(u64, Seq<u8>)> {
    let t = skip_ws(b);
    let ds = take_digits(t);
    match parse_u64_field(ds) {
        Some(v) => Some((v, t.skip(ds.len() as int))),
        None => None,
    }
}

/// A signed integer token in `i32` range.
pub open spec fn parse_i32_tok(b: Seq<u8>) -> Option<(i32, Seq<u8>)> {
    let t = skip_ws(b);
    if t.len() > 0 && t[0] == 45 {
        let ds = take_digits(t.drop_first());
        match parse_u64_field(ds) {
            Some(m) => if m <= 0x8000_0000 {
                Some(((-(m as int)) as i32, t.drop_first().skip(ds.len() as int)))
            } else {
                None
            },
            None => None,
        }
    } else {
        let ds = take_digits(t);
        match parse_u64_field(ds) {
            Some(m) => if m <= 0x7fff_ffff {
                Some((m as i32, t.skip(ds.len() as int)))
            } else {
                None
            },
            None => None,
        }
    }
}

/// A string token without escapes; gives its contents.
pub open spec fn parse_str_tok(b: Seq<u8>) -> Option<(Seq<u8>, Seq<u8>)> {
    let t = skip_ws(b);
    if t.len() > 0 && t[0] == 34 {
        let c = take_plain(t.drop_first());
        let r = t.drop_first().skip(c.len() as int);
        if r.len() > 0 && r[0] == 34 {
            Some((c, r.drop_first()))
        } else {
            None
        }
    } else {
        None
    }
}

pub open spec fn key_x() -> Seq<u8> {
    seq![34u8, 120u8, 34u8]
}

pub open spec fn key_y() -> Seq<u8> {
    seq![34u8, 121u8, 34u8]
}

pub open spec fn key_button() -> Seq<u8> {
    seq![34u8, 98u8, 117u8, 116u8, 116u8, 111u8, 110u8, 34u8]
}

pub open spec fn key_time() -> Seq<u8> {
    seq![34u8, 116u8, 105u8, 109u8, 101u8, 34u8]
}

pub open spec fn null_tok() -> Seq<u8> {
    seq![110u8, 117u8, 108u8, 108u8]
}

/// The time field and closing brace that end every object.
pub open spec fn parse_time_and_close(b: Seq<u8>, x: i32, y: i32, button: Option<ButtonLabel>)
    -> Option<(MouseEvent, Seq<u8>)> {
    match expect(b, key_time()) {
        None => None,
        Some(b1) => match expect(b1, seq![58u8]) {
            None => None,
            Some(b2) => match parse_u64_tok(b2) {
                None => None,
                Some((t, b3)) => match expect(b3, seq![125u8]) {
                    None => None,
                    Some(b4) => Some((MouseEvent { x, y, button, time_us: t }, b4)),
                },
            },
        },
    }
}

/// One object: `{`, `"x"`, `:`, int, `,`, `"y"`, `:`, int, `,`, then an
/// optional `"button"` field (string or null), then `"time"`, `:`, int,
/// `}`.
pub open spec fn parse_obj(b: Seq<u8>) -> Option<(MouseEvent, Seq<u8>)> {
    match expect(b, seq![123u8]) {
        None => None,
        Some(b1) => match expect(b1, key_x()) {
            None => None,
            Some(b2) => match expect(b2, seq![58u8]) {
                None => None,
                Some(b3) => match parse_i32_tok(b3) {
                    None => None,
                    Some((x, b4)) => match expect(b4, seq![44u8]) {
                        None => None,
                        Some(b5) => match expect(b5, key_y()) {
                            None => None,
                            Some(b6) => match expect(b6, seq![58u8]) {
                                None => None,
                                Some(b7) => match parse_i32_tok(b7) {
                                    None => None,
                                    Some((y, b8)) => match expect(b8, seq![44u8]) {
                                        None => None,
                                        Some(b9) => match expect(b9, key_button()) {
                                            Some(b10) => match expect(b10, seq![58u8]) {
                                                None => None,
                                                Some(b11) => match expect(b11, null_tok()) {
                                                    Some(b12) => match expect(b12, seq![44u8]) {
                                                        None => None,
                                                        Some(b13) => parse_time_and_close(
                                                            b13, x, y, None,
                                                        ),
                                                    },
                                                    None => match parse_str_tok(b11) {
                                                        None => None,
                                                        Some((c, b12)) => match expect(
                                                            b12, seq![44u8],
                                                        ) {
                                                            None => None,
                                                            Some(b13) => parse_time_and_close(
                                                                b13, x, y,
                                                                Some(label_of_bytes(c)),
                                                            ),
                                                        },
                                                    },
                                                },
                                            },
                                            None => parse_time_and_close(b9, x, y, None),
                                        },
                                    },
                                },
                            },
                        },
                    },
                },
            },
        },
    }
}

/// Objects separated by commas, ended by the closing bracket; `fuel` bounds
/// the element count (each element takes at least one byte).
pub open spec fn parse_elems(b: Seq<u8>, fuel: nat) -> Option<(Seq<MouseEvent>, Seq<u8>)>
    decreases fuel,
{
    if fuel == 0 {
        None
    } else {
        match parse_obj(b) {
            None => None,
            Some((e, r)) => match expect(r, seq![44u8]) {
                Some(r2) => match parse_elems(r2, (fuel - 1) as nat) {
                    Some((s, rr)) => Some((seq![e] + s, rr)),
                    None => None,
                },
                None => match expect(r, seq![93u8]) {
                    Some(r2) => Some((seq![e], r2)),
                    None => None,
                },
            },
        }
    }
}

/// The whole document: an array of objects and nothing after it.
pub open spec fn parse_doc(b: Seq<u8>) -> Option<Seq<MouseEvent>> {
    match expect(b, seq![91u8]) {
        None => None,
        Some(b1) => match expect(b1, seq![93u8]) {
            Some(r) => if skip_ws(r).len() == 0 {
                Some(Seq::empty())
            } else {
                None
            },
            None => match parse_elems(b1, b1.len() as nat) {
                Some((s, r)) => if skip_ws(r).len() == 0 {
                    Some(s)
                } else {
                    None
                },
                None => None,
            },
        },
    }
}

pub open spec fn decode_spec(b: Seq<u8>) -> Result<Seq<MouseEvent>, DecodeError> {
    match parse_doc(b) {
        Some(s) => Ok(s),
        None => Err(DecodeError::Malformed),
    }
}

pub open spec fn sp2() -> Seq<u8> {
    seq![32u8, 32u8]
}

pub open spec fn sp4() -> Seq<u8> {
    seq![32u8, 32u8, 32u8, 32u8]
}

/// The written form of the button field's value: `null`, or the label in
/// quotes.
pub open spec fn button_json(b: Option<ButtonLabel>) -> Seq<u8> {
    match b {
        None => null_tok(),
        Some(l) => seq![34u8] + label_bytes(l) + seq![34u8],
    }
}

pub open spec fn obj_part_xy(e: MouseEvent) -> Seq<u8> {
    seq![123u8, 10u8] + sp4() + key_x() + seq![58u8, 32u8] + dec_int(e.x as int)
        + seq![44u8, 10u8] + sp4() + key_y() + seq![58u8, 32u8] + dec_int(e.y as int)
        + seq![44u8, 10u8]
}

pub open spec fn obj_part_button(b: Option<ButtonLabel>) -> Seq<u8> {
    sp4() + key_button() + seq![58u8, 32u8] + button_json(b) + seq![44u8, 10u8]
}

pub open spec fn obj_part_time(t: u64) -> Seq<u8> {
    sp4() + key_time() + seq![58u8, 32u8] + dec_nat(t as nat) + seq![10u8] + sp2() + seq![125u8]
}

/// One pretty-printed object, indented for its place in the array.
pub open spec fn obj_bytes(e: MouseEvent) -> Seq<u8> {
    obj_part_xy(e) + obj_part_button(e.button) + obj_part_time(e.time_us)
}

pub open spec fn rest_elems(s: Seq<MouseEvent>) -> Seq<u8>
    decreases s.len(),
{
    if s.len() == 0 {
        Seq::empty()
    } else {
        seq![44u8, 10u8] + sp2() + obj_bytes(s.first()) + rest_elems(s.drop_first())
    }
}

pub open spec fn elems_bytes(s: Seq<MouseEvent>) -> Seq<u8> {
    obj_bytes(s.first()) + rest_elems(s.drop_first())
}

/// The whole encoding: `[]` for an empty timeline, else the pretty-printed
/// array.
pub open spec fn encode_spec(s: Seq<MouseEvent>) -> Seq<u8> {
    if s.len() == 0 {
        seq![91u8, 93u8]
    } else {
        seq![91u8, 10u8] + sp2() + elems_bytes(s) + seq![10u8, 93u8]
    }
}

pub open spec fn all_ws(s: Seq<u8>) -> bool {
    forall|i: int| 0 <= i < s.len() ==> is_ws(#[trigger] s[i])
}

proof fn lemma_skip_ws_concat(w: Seq<u8>, b: Seq<u8>)
    requires
        all_ws(w),
    ensures
        skip_ws(w + b) == skip_ws(b),
    decreases w.len(),
{
    if w.len() == 0 {
        assert(w + b =~= b);
    } else {
        assert((w + b)[0] == w[0]);
        assert((w + b).drop_first() =~= w.drop_first() + b);
        assert(all_ws(w.drop_first())) by {
            assert forall|i: int| 0 <= i < w.drop_first().len() implies
                is_ws(#[trigger] w.drop_first()[i])
            by {
                assert(w.drop_first()[i] == w[i + 1]);
            }
        }
        lemma_skip_ws_concat(w.drop_first(), b);
    }
}

proof fn lemma_expect_of(pre: Seq<u8>, tok: Seq<u8>, rest: Seq<u8>)
    requires
        all_ws(pre),
        tok.len() > 0,
        !is_ws(tok[0]),
    ensures
        expect(pre + (tok + rest), tok) == Some(rest),
{
    lemma_skip_ws_concat(pre, tok + rest);
    assert((tok + rest)[0] == tok[0]);
    assert(skip_ws(tok + rest) == tok + rest);
    assert((tok + rest).take(tok.len() as int) =~= tok);
    assert((tok + rest).skip(tok.len() as int) =~= rest);
}

proof fn lemma_take_digits_of(ds: Seq<u8>, rest: Seq<u8>)
    requires
        all_digits(ds),
        rest.len() == 0 || !is_digit(rest[0]),
    ensures
        take_digits(ds + rest) == ds,
        (ds + rest).skip(ds.len() as int) == rest,
    decreases ds.len(),
{
    assert((ds + rest).skip(ds.len() as int) =~= rest);
    if ds.len() == 0 {
        assert(ds + rest =~= rest);
        assert(take_digits(rest) =~= Seq::<u8>::empty());
        assert(ds =~= Seq::<u8>::empty());
    } else {
        assert((ds + rest)[0] == ds[0]);
        assert(is_digit(ds[0]));
        assert((ds + rest).drop_first() =~= ds.drop_first() + rest);
        assert(all_digits(ds.drop_first())) by {
            assert forall|i: int| 0 <= i < ds.drop_first().len() implies
                is_digit(#[trigger] ds.drop_first()[i])
            by {
                assert(ds.drop_first()[i] == ds[i + 1]);
            }
        }
        lemma_take_digits_of(ds.drop_first(), rest);
        assert(take_digits(ds + rest) =~= ds);
    }
}

proof fn lemma_take_plain_of(c: Seq<u8>, rest: Seq<u8>)
    requires
        forall|i: int| 0 <= i < c.len() ==> #[trigger] c[i] != 34 && c[i] != 92,
        rest.len() == 0 || rest[0] == 34 || rest[0] == 92,
    ensures
        take_plain(c + rest) == c,
        (c + rest).skip(c.len() as int) == rest,
    decreases c.len(),
{
    assert((c + rest).skip(c.len() as int) =~= rest);
    if c.len() == 0 {
        assert(c + rest =~= rest);
        assert(take_plain(rest) =~= Seq::<u8>::empty());
        assert(c =~= Seq::<u8>::empty());
    } else {
        assert((c + rest)[0] == c[0]);
        assert((c + rest).drop_first() =~= c.drop_first() + rest);
        assert(forall|i: int| 0 <= i < c.drop_first().len() ==> #[trigger] c.drop_first()[i] != 34
            && c.drop_first()[i] != 92) by {
            assert forall|i: int| 0 <= i < c.drop_first().len() implies
                #[trigger] c.drop_first()[i] != 34 && c.drop_first()[i] != 92
            by {
                assert(c.drop_first()[i] == c[i + 1]);
            }
        }
        lemma_take_plain_of(c.drop_first(), rest);
        assert(take_plain(c + rest) =~= c);
    }
}

proof fn lemma_u64_tok_of(pre: Seq<u8>, t: u64, rest: Seq<u8>)
    requires
        all_ws(pre),
        rest.len() == 0 || !is_digit(rest[0]),
    ensures
        parse_u64_tok(pre + (dec_nat(t as nat) + rest)) == Some((t, rest)),
{
    crate::digits::lemma_dec_nat_wf(t as nat);
    crate::digits::lemma_dec_nat_val(t as nat);
    lemma_skip_ws_concat(pre, dec_nat(t as nat) + rest);
    assert((dec_nat(t as nat) + rest)[0] == dec_nat(t as nat)[0]);
    assert(is_digit(dec_nat(t as nat)[0]));
    assert(!is_ws(dec_nat(t as nat)[0]));
    assert(skip_ws(dec_nat(t as nat) + rest) == dec_nat(t as nat) + rest);
    lemma_take_digits_of(dec_nat(t as nat), rest);
}

proof fn lemma_i32_tok_of(pre: Seq<u8>, v: i32, rest: Seq<u8>)
    requires
        all_ws(pre),
        rest.len() == 0 || !is_digit(rest[0]),
    ensures
        parse_i32_tok(pre + (dec_int(v as int) + rest)) == Some((v, rest)),
{
    lemma_skip_ws_concat(pre, dec_int(v as int) + rest);
    if v < 0 {
        let m = (-(v as int)) as nat;
        crate::digits::lemma_dec_nat_wf(m);
        crate::digits::lemma_dec_nat_val(m);
        assert(dec_int(v as int)[0] == 45);
        assert((dec_int(v as int) + rest)[0] == 45);
        assert(skip_ws(dec_int(v as int) + rest) == dec_int(v as int) + rest);
        assert((dec_int(v as int) + rest).drop_first() =~= dec_nat(m) + rest);
        lemma_take_digits_of(dec_nat(m), rest);
    } else {
        crate::digits::lemma_dec_nat_wf(v as nat);
        crate::digits::lemma_dec_nat_val(v as nat);
        assert((dec_int(v as int) + rest)[0] == dec_int(v as int)[0]);
        assert(is_digit(dec_int(v as int)[0]));
        assert(skip_ws(dec_int(v as int) + rest) == dec_int(v as int) + rest);
        lemma_take_digits_of(dec_nat(v as nat), rest);
        assert((dec_int(v as int) + rest).take(dec_int(v as int).len() as int)
            =~= dec_int(v as int));
    }
}

proof fn lemma_label_plain(l: ButtonLabel)
    ensures
        forall|i: int| 0 <= i < label_bytes(l).len() ==> #[trigger] label_bytes(l)[i] != 34
            && label_bytes(l)[i] != 92,
        label_bytes(l).len() > 0,
{
    assert forall|i: int| 0 <= i < label_bytes(l).len() implies #[trigger] label_bytes(l)[i] != 34
        && label_bytes(l)[i] != 92 by {
        match l {
            ButtonLabel::Left => {
                assert(label_bytes(l)[i] != 92);
            },
            ButtonLabel::Right => {
                assert(label_bytes(l)[i] != 92);
            },
            ButtonLabel::Middle => {
                assert(label_bytes(l)[i] != 92);
            },
            ButtonLabel::Other => {
                assert(label_bytes(l)[i] != 92);
            },
        }
    }
}

proof fn lemma_str_tok_of(pre: Seq<u8>, l: ButtonLabel, rest: Seq<u8>)
    requires
        all_ws(pre),
    ensures
        parse_str_tok(pre + (seq![34u8] + label_bytes(l) + seq![34u8] + rest))
            == Some((label_bytes(l), rest)),
{
    let body = seq![34u8] + label_bytes(l) + seq![34u8] + rest;
    lemma_skip_ws_concat(pre, body);
    assert(body[0] == 34);
    assert(!is_ws(body[0]));
    assert(skip_ws(body) == body);
    lemma_label_plain(l);
    assert(body.drop_first() =~= label_bytes(l) + (seq![34u8] + rest));
    lemma_take_plain_of(label_bytes(l), seq![34u8] + rest);
    assert((seq![34u8] + rest)[0] == 34);
    assert((seq![34u8] + rest).drop_first() =~= rest);
}

/// The stored text that follows a sample's `y` field when a comma comes
/// next: the button is absent here; used only in proofs below.
pub open spec fn time_tail(t: u64, rest: Seq<u8>) -> Seq<u8> {
    seq![44u8, 10u8] + sp4() + key_time() + seq![58u8, 32u8] + dec_nat(t as nat) + seq![10u8]
        + sp2() + seq![125u8] + rest
}

pub open spec fn time_tail_in(t: u64, rest: Seq<u8>) -> Seq<u8> {
    seq![10u8] + sp4() + key_time() + (seq![58u8] + (seq![32u8] + (dec_nat(t as nat) + (seq![10u8]
        + sp2() + seq![125u8] + rest))))
}

#[verifier::rlimit(100)]
#[verifier::spinoff_prover]
proof fn lemma_close_of(xx: i32, yy: i32, btn: Option<ButtonLabel>, t: u64, rest: Seq<u8>)
    ensures
        expect(time_tail(t, rest), seq![44u8]) == Some(time_tail_in(t, rest)),
        parse_time_and_close(time_tail_in(t, rest), xx, yy, btn) == Some((
            MouseEvent { x: xx, y: yy, button: btn, time_us: t },
            rest,
        )),
{
    assert(time_tail(t, rest) =~= Seq::<u8>::empty() + (seq![44u8] + time_tail_in(t, rest)));
    lemma_expect_of(Seq::<u8>::empty(), seq![44u8], time_tail_in(t, rest));
    assert(time_tail_in(t, rest) =~= (seq![10u8] + sp4()) + (key_time() + (seq![58u8] + (seq![32u8]
        + (dec_nat(t as nat) + (seq![10u8] + sp2() + seq![125u8] + rest))))));
    assert(all_ws(seq![10u8] + sp4()));
    lemma_expect_of(seq![10u8] + sp4(), key_time(), seq![58u8] + (seq![32u8] + (dec_nat(t as nat)
        + (seq![10u8] + sp2() + seq![125u8] + rest))));
    lemma_expect_of(Seq::<u8>::empty(), seq![58u8], seq![32u8] + (dec_nat(t as nat) + (seq![10u8]
        + sp2() + seq![125u8] + rest)));
    let tr = seq![10u8] + sp2() + seq![125u8] + rest;
    assert(tr.len() > 0 && !is_digit(tr[0]));
    assert(all_ws(seq![32u8]));
    lemma_u64_tok_of(seq![32u8], t, tr);
    assert(tr =~= (seq![10u8] + sp2()) + (seq![125u8] + rest));
    assert(all_ws(seq![10u8] + sp2()));
    lemma_expect_of(seq![10u8] + sp2(), seq![125u8], rest);
}

#[verifier::rlimit(100)]
#[verifier::spinoff_prover]
proof fn lemma_button_step(btn: Option<ButtonLabel>, t9: Seq<u8>)
    ensures
        btn is None ==> expect(seq![32u8] + (button_json(btn) + t9), null_tok()) == Some(t9),
        btn matches Some(l) ==> expect(seq![32u8] + (button_json(btn) + t9), null_tok()) is None
            && parse_str_tok(seq![32u8] + (button_json(btn) + t9)) == Some((label_bytes(l), t9))
            && label_of_bytes(label_bytes(l)) == l,
{
    let tb2 = seq![32u8] + (button_json(btn) + t9);
    assert(all_ws(seq![32u8]));
    match btn {
        None => {
            assert(tb2 =~= seq![32u8] + (null_tok() + t9));
            lemma_expect_of(seq![32u8], null_tok(), t9);
        },
        Some(l) => {
            // The null token cannot match: the value starts with a quote.
            lemma_skip_ws_concat(seq![32u8], button_json(btn) + t9);
            assert((button_json(btn) + t9)[0] == 34);
            assert(skip_ws(button_json(btn) + t9) == button_json(btn) + t9);
            assert(expect(tb2, null_tok()) is None) by {
                let tt = button_json(btn) + t9;
                if null_tok().len() <= tt.len() && tt.take(4) == null_tok() {
                    assert(tt.take(4)[0] == tt[0]);
                    assert(null_tok()[0] == 110);
                }
            }
            assert(tb2 =~= seq![32u8] + (seq![34u8] + label_bytes(l) + seq![34u8] + t9));
            lemma_str_tok_of(seq![32u8], l, t9);
            crate::lemma_label_round_trip(l);
        },
    }
}

/// Decoding one pretty-printed object, after any leading whitespace, gives
/// back the sample and what follows it.
#[verifier::rlimit(100)]
#[verifier::spinoff_prover]
proof fn lemma_obj_round(pre: Seq<u8>, e: MouseEvent, rest: Seq<u8>)
    requires
        all_ws(pre),
    ensures
        parse_obj(pre + (obj_bytes(e) + rest)) == Some((e, rest)),
{
    let x = e.x as int;
    let y = e.y as int;
    let t9 = time_tail(e.time_us, rest);
    let tb = seq![58u8, 32u8] + button_json(e.button) + t9;
    let t8 = seq![10u8] + sp4() + key_button() + tb;
    let t6 = seq![44u8] + t8;
    let t5 = seq![32u8] + (dec_int(y) + t6);
    let t4 = seq![58u8] + t5;
    let t3 = seq![10u8] + sp4() + key_y() + t4;
    let t2b = seq![44u8] + t3;
    let t2 = seq![32u8] + (dec_int(x) + t2b);
    let t1b = seq![58u8] + t2;
    let t1 = seq![10u8] + sp4() + key_x() + t1b;
    let b = pre + (obj_bytes(e) + rest);
    assert(b =~= pre + (seq![123u8] + t1));
    lemma_expect_of(pre, seq![123u8], t1);
    assert(t1 =~= (seq![10u8] + sp4()) + (key_x() + t1b));
    assert(all_ws(seq![10u8] + sp4()));
    lemma_expect_of(seq![10u8] + sp4(), key_x(), t1b);
    assert(t1b =~= Seq::<u8>::empty() + (seq![58u8] + t2));
    lemma_expect_of(Seq::<u8>::empty(), seq![58u8], t2);
    assert(all_ws(seq![32u8]));
    assert(t2b.len() > 0 && !is_digit(t2b[0]));
    lemma_i32_tok_of(seq![32u8], e.x, t2b);
    assert(t2b =~= Seq::<u8>::empty() + (seq![44u8] + t3));
    lemma_expect_of(Seq::<u8>::empty(), seq![44u8], t3);
    assert(t3 =~= (seq![10u8] + sp4()) + (key_y() + t4));
    lemma_expect_of(seq![10u8] + sp4(), key_y(), t4);
    assert(t4 =~= Seq::<u8>::empty() + (seq![58u8] + t5));
    lemma_expect_of(Seq::<u8>::empty(), seq![58u8], t5);
    assert(t6.len() > 0 && !is_digit(t6[0]));
    lemma_i32_tok_of(seq![32u8], e.y, t6);
    assert(t6 =~= Seq::<u8>::empty() + (seq![44u8] + t8));
    lemma_expect_of(Seq::<u8>::empty(), seq![44u8], t8);
    assert(t8 =~= (seq![10u8] + sp4()) + (key_button() + tb));
    lemma_expect_of(seq![10u8] + sp4(), key_button(), tb);
    assert(tb =~= Seq::<u8>::empty() + (seq![58u8] + (seq![32u8] + (button_json(e.button) + t9))));
    lemma_expect_of(Seq::<u8>::empty(), seq![58u8], seq![32u8] + (button_json(e.button) + t9));
    lemma_button_step(e.button, t9);
    lemma_close_of(e.x, e.y, e.button, e.time_us, rest);
    assert(MouseEvent { x: e.x, y: e.y, button: e.button, time_us: e.time_us } == e);
}

proof fn lemma_rest_elems_len(s: Seq<MouseEvent>)
    ensures
        rest_elems(s).len() >= s.len(),
    decreases s.len(),
{
    if s.len() > 0 {
        lemma_rest_elems_len(s.drop_first());
    }
}

/// Decoding a pretty-printed element list (with the closing bracket after
/// it) gives back the samples and what follows the bracket.
#[verifier::rlimit(100)]
#[verifier::spinoff_prover]
proof fn lemma_elems_round(pre: Seq<u8>, s: Seq<MouseEvent>, tail: Seq<u8>, fuel: nat)
    requires
        all_ws(pre),
        s.len() >= 1,
        fuel >= s.len(),
    ensures
        parse_elems(pre + (elems_bytes(s) + (seq![10u8, 93u8] + tail)), fuel)
            == Some((s, tail)),
    decreases s.len(),
{
    let whole = pre + (elems_bytes(s) + (seq![10u8, 93u8] + tail));
    if s.len() == 1 {
        let r = seq![10u8, 93u8] + tail;
        assert(whole =~= pre + (obj_bytes(s.first()) + r));
        lemma_obj_round(pre, s.first(), r);
        // The comma cannot match: after whitespace comes the bracket.
        assert(r =~= seq![10u8] + (seq![93u8] + tail));
        assert(all_ws(seq![10u8]));
        lemma_skip_ws_concat(seq![10u8], seq![93u8] + tail);
        assert((seq![93u8] + tail)[0] == 93);
        assert(skip_ws(seq![93u8] + tail) == seq![93u8] + tail);
        assert(expect(r, seq![44u8]) is None) by {
            let tt = seq![93u8] + tail;
            if seq![44u8].len() <= tt.len() && tt.take(1) == seq![44u8] {
                assert(tt.take(1)[0] == tt[0]);
            }
        }
        lemma_expect_of(seq![10u8], seq![93u8], tail);
        assert(seq![s.first()] =~= s);
    } else {
        let inner = seq![10u8] + sp2() + (elems_bytes(s.drop_first()) + (seq![10u8, 93u8] + tail));
        let r = seq![44u8] + inner;
        assert(rest_elems(s.drop_first()) =~= seq![44u8, 10u8] + sp2() + obj_bytes(
            s.drop_first().first(),
        ) + rest_elems(s.drop_first().drop_first()));
        assert(whole =~= pre + (obj_bytes(s.first()) + r));
        lemma_obj_round(pre, s.first(), r);
        assert(r =~= Seq::<u8>::empty() + (seq![44u8] + inner));
        lemma_expect_of(Seq::<u8>::empty(), seq![44u8], inner);
        assert(inner =~= (seq![10u8] + sp2()) + (elems_bytes(s.drop_first()) + (seq![10u8, 93u8]
            + tail)));
        assert(all_ws(seq![10u8] + sp2()));
        lemma_elems_round(seq![10u8] + sp2(), s.drop_first(), tail, (fuel - 1) as nat);
        assert(seq![s.first()] + s.drop_first() =~= s);
    }
}

#[verifier::rlimit(100)]
#[verifier::spinoff_prover]
proof fn lemma_round_trip_nonempty(s: Seq<MouseEvent>)
    requires
        s.len() > 0,
    ensures
        parse_doc(encode_spec(s)) == Some(s),
{
    let enc = encode_spec(s);
    let b1 = seq![10u8] + sp2() + (elems_bytes(s) + (seq![10u8, 93u8] + Seq::<u8>::empty()));
    assert(enc =~= Seq::<u8>::empty() + (seq![91u8] + b1));
    lemma_expect_of(Seq::<u8>::empty(), seq![91u8], b1);
    // The closing bracket cannot match yet: an object opens first.
    let t = obj_bytes(s.first()) + (rest_elems(s.drop_first()) + (seq![10u8, 93u8]
        + Seq::<u8>::empty()));
    assert(b1 =~= (seq![10u8] + sp2()) + t);
    assert(all_ws(seq![10u8] + sp2()));
    lemma_skip_ws_concat(seq![10u8] + sp2(), t);
    assert(t[0] == 123);
    assert(skip_ws(t) == t);
    assert(expect(b1, seq![93u8]) is None) by {
        if seq![93u8].len() <= t.len() && t.take(1) == seq![93u8] {
            assert(t.take(1)[0] == t[0]);
        }
    }
    assert(b1.len() >= s.len()) by {
        lemma_rest_elems_len(s.drop_first());
    }
    assert(b1 =~= (seq![10u8] + sp2()) + (elems_bytes(s) + (seq![10u8, 93u8]
        + Seq::<u8>::empty())));
    lemma_elems_round(seq![10u8] + sp2(), s, Seq::<u8>::empty(), b1.len() as nat);
    assert(skip_ws(Seq::<u8>::empty()).len() == 0);
}

/// The round-trip law for the structured format.
pub proof fn lemma_round_trip(s: Seq<MouseEvent>)
    ensures
        decode_spec(encode_spec(s)) == Ok::<Seq<MouseEvent>, DecodeError>(s),
{
    let enc = encode_spec(s);
    if s.len() == 0 {
        assert(enc =~= Seq::<u8>::empty() + (seq![91u8] + seq![93u8]));
        lemma_expect_of(Seq::<u8>::empty(), seq![91u8], seq![93u8]);
        assert(seq![93u8] =~= Seq::<u8>::empty() + (seq![93u8] + Seq::<u8>::empty()));
        lemma_expect_of(Seq::<u8>::empty(), seq![93u8], Seq::<u8>::empty());
        assert(skip_ws(Seq::<u8>::empty()).len() == 0);
        assert(s =~= Seq::<MouseEvent>::empty());
    } else {
        lemma_round_trip_nonempty(s);
    }
}

proof fn lemma_rest_elems_snoc(s: Seq<MouseEvent>, e: MouseEvent)
    ensures
        rest_elems(s.push(e)) == rest_elems(s) + (seq![44u8, 10u8] + sp2() + obj_bytes(e)),
    decreases s.len(),
{
    if s.len() == 0 {
        assert(s.push(e).first() == e);
        assert(s.push(e).drop_first() =~= Seq::<MouseEvent>::empty());
        assert(rest_elems(s.push(e).drop_first()) =~= Seq::<u8>::empty());
        assert(rest_elems(s.push(e)) =~= rest_elems(s) + (seq![44u8, 10u8] + sp2()
            + obj_bytes(e)));
    } else {
        assert(s.push(e).first() == s.first());
        assert(s.push(e).drop_first() =~= s.drop_first().push(e));
        lemma_rest_elems_snoc(s.drop_first(), e);
        assert(rest_elems(s.push(e)) =~= rest_elems(s) + (seq![44u8, 10u8] + sp2()
            + obj_bytes(e)));
    }
}

fn push_part_xy(out: &mut Vec<u8>, e: MouseEvent)
    ensures
        final(out)@ == old(out)@ + obj_part_xy(e),
{
    out.push(123);
    out.push(10);
    out.push(32);
    out.push(32);
    out.push(32);
    out.push(32);
    out.push(34);
    out.push(120);
    out.push(34);
    out.push(58);
    out.push(32);
    let ghost ga = out@;
    proof {
        assert(ga =~= old(out)@ + (seq![123u8, 10u8] + sp4() + key_x() + seq![58u8, 32u8]));
    }
    let mut fx = fmt_i32(e.x);
    out.append(&mut fx);
    out.push(44);
    out.push(10);
    out.push(32);
    out.push(32);
    out.push(32);
    out.push(32);
    out.push(34);
    out.push(121);
    out.push(34);
    out.push(58);
    out.push(32);
    let ghost gb = out@;
    proof {
        assert(gb =~= ga + dec_int(e.x as int) + (seq![44u8, 10u8] + sp4() + key_y()
            + seq![58u8, 32u8]));
    }
    let mut fy = fmt_i32(e.y);
    out.append(&mut fy);
    out.push(44);
    out.push(10);
    proof {
        assert(out@ =~= gb + dec_int(e.y as int) + seq![44u8, 10u8]);
        assert(out@ =~= old(out)@ + obj_part_xy(e));
    }
}

fn push_part_button(out: &mut Vec<u8>, b: Option<ButtonLabel>)
    ensures
        final(out)@ == old(out)@ + obj_part_button(b),
{
    out.push(32);
    out.push(32);
    out.push(32);
    out.push(32);
    out.push(34);
    out.push(98);
    out.push(117);
    out.push(116);
    out.push(116);
    out.push(111);
    out.push(110);
    out.push(34);
    out.push(58);
    out.push(32);
    let ghost gc = out@;
    proof {
        assert(gc =~= old(out)@ + (sp4() + key_button() + seq![58u8, 32u8]));
    }
    match b {
        None => {
            out.push(110);
            out.push(117);
            out.push(108);
            out.push(108);
        },
        Some(l) => {
            out.push(34);
            push_label(out, l);
            out.push(34);
        },
    }
    proof {
        assert(out@ =~= gc + button_json(b));
    }
    out.push(44);
    out.push(10);
    proof {
        assert(out@ =~= gc + button_json(b) + seq![44u8, 10u8]);
        assert(out@ =~= old(out)@ + obj_part_button(b));
    }
}

fn push_part_time(out: &mut Vec<u8>, t: u64)
    ensures
        final(out)@ == old(out)@ + obj_part_time(t),
{
    out.push(32);
    out.push(32);
    out.push(32);
    out.push(32);
    out.push(34);
    out.push(116);
    out.push(105);
    out.push(109);
    out.push(101);
    out.push(34);
    out.push(58);
    out.push(32);
    let ghost gd = out@;
    proof {
        assert(gd =~= old(out)@ + (sp4() + key_time() + seq![58u8, 32u8]));
    }
    let mut ft = fmt_u64(t);
    out.append(&mut ft);
    out.push(10);
    out.push(32);
    out.push(32);
    out.push(125);
    proof {
        assert(out@ =~= gd + dec_nat(t as nat) + (seq![10u8] + sp2() + seq![125u8]));
        assert(out@ =~= old(out)@ + obj_part_time(t));
    }
}

/// Appends one pretty-printed object.
fn push_obj(out: &mut Vec<u8>, e: MouseEvent)
    ensures
        final(out)@ == old(out)@ + obj_bytes(e),
{
    push_part_xy(out, e);
    push_part_button(out, e.button);
    push_part_time(out, e.time_us);
    proof {
        assert(out@ =~= old(out)@ + obj_bytes(e));
    }
}

/// Writes a timeline as pretty-printed structured text.
pub fn encode(events: &Vec<MouseEvent>) -> (r: Vec<u8>)
    ensures
        r@ == encode_spec(events@),
{
    let mut out: Vec<u8> = Vec::new();
    let n = events.len();
    if n == 0 {
        out.push(91);
        out.push(93);
        proof {
            assert(out@ =~= encode_spec(events@));
        }
        return out;
    }
    out.push(91);
    out.push(10);
    out.push(32);
    out.push(32);
    push_obj(&mut out, events[0]);
    proof {
        assert(events@.take(1).first() == events@[0]);
        assert(events@.take(1).drop_first() =~= Seq::<MouseEvent>::empty());
        assert(rest_elems(events@.take(1).drop_first()) =~= Seq::<u8>::empty());
        assert(out@ =~= seq![91u8, 10u8] + sp2() + elems_bytes(events@.take(1)));
    }
    let mut i: usize = 1;
    while i < n
        invariant
            1 <= i <= n,
            n == events@.len(),
            out@ == seq![91u8, 10u8] + sp2() + elems_bytes(events@.take(i as int)),
        decreases n - i,
    {
        let ghost before = out@;
        out.push(44);
        out.push(10);
        out.push(32);
        out.push(32);
        push_obj(&mut out, events[i]);
        proof {
            let pfx = events@.take(i as int);
            assert(out@ =~= before + (seq![44u8, 10u8] + sp2() + obj_bytes(events@[i as int])));
            lemma_rest_elems_snoc(pfx.drop_first(), events@[i as int]);
            assert(events@.take(i + 1) =~= pfx.push(events@[i as int]));
            assert(events@.take(i + 1).first() == pfx.first());
            assert(events@.take(i + 1).drop_first() =~= pfx.drop_first().push(events@[i as int]));
            assert(out@ =~= seq![91u8, 10u8] + sp2() + elems_bytes(events@.take(i + 1)));
        }
        i = i + 1;
    }
    out.push(10);
    out.push(93);
    proof {
        assert(events@.take(n as int) =~= events@);
        assert(out@ =~= encode_spec(events@));
    }
    out
}

/// Advances past whitespace.
fn ws_to(b: &[u8], pos: usize) -> (np: usize)
    requires
        pos <= b@.len(),
    ensures
        pos <= np <= b@.len(),
        skip_ws(b@.skip(pos as int)) == b@.skip(np as int),
        np == b@.len() || !is_ws(b@[np as int]),
{
    let n = b.len();
    let mut p = pos;
    while p < n && (b[p] == 32 || b[p] == 9 || b[p] == 10 || b[p] == 13)
        invariant
            pos <= p <= n,
            n == b@.len(),
            skip_ws(b@.skip(pos as int)) == skip_ws(b@.skip(p as int)),
        decreases n - p,
    {
        proof {
            assert(b@.skip(p as int)[0] == b@[p as int]);
            assert(b@.skip(p as int).drop_first() =~= b@.skip(p + 1));
        }
        p = p + 1;
    }
    proof {
        assert(skip_ws(b@.skip(p as int)) == b@.skip(p as int));
    }
    p
}

/// Matches a token after optional whitespace, as `expect` describes.
fn tok_at(b: &[u8], pos: usize, tok: &[u8]) -> (r: Option<usize>)
    requires
        pos <= b@.len(),
    ensures
        match r {
            Some(np) => pos <= np <= b@.len() && expect(b@.skip(pos as int), tok@) == Some(
                b@.skip(np as int),
            ),
            None => expect(b@.skip(pos as int), tok@) is None,
        },
{
    let p = ws_to(b, pos);
    let tl = tok.len();
    if b.len() - p < tl {
        return None;
    }
    if bytes_eq(slice_subrange(b, p, p + tl), tok) {
        proof {
            assert(b@.skip(p as int).take(tl as int) =~= b@.subrange(p as int, p as int
                + tl as int));
            assert(b@.skip(p as int).skip(tl as int) =~= b@.skip(p as int + tl as int));
        }
        Some(p + tl)
    } else {
        proof {
            assert(b@.skip(p as int).take(tl as int) =~= b@.subrange(p as int, p as int
                + tl as int));
        }
        None
    }
}

/// The end of the digit run starting at `pos`.
fn digits_end(b: &[u8], pos: usize) -> (pe: usize)
    requires
        pos <= b@.len(),
    ensures
        pos <= pe <= b@.len(),
        forall|k: int| pos <= k < pe ==> is_digit(#[trigger] b@[k]),
        pe == b@.len() || !is_digit(b@[pe as int]),
{
    let n = b.len();
    let mut p = pos;
    while p < n && 48 <= b[p] && b[p] <= 57
        invariant
            pos <= p <= n,
            n == b@.len(),
            forall|k: int| pos <= k < p ==> is_digit(#[trigger] b@[k]),
        decreases n - p,
    {
        p = p + 1;
    }
    p
}

/// A signed integer token in `i32` range, as `parse_i32_tok` describes.
fn i32_tok_at(b: &[u8], pos: usize) -> (r: Option<(i32, usize)>)
    requires
        pos <= b@.len(),
    ensures
        match r {
            Some((v, np)) => pos <= np <= b@.len() && parse_i32_tok(b@.skip(pos as int)) == Some(
                (v, b@.skip(np as int)),
            ),
            None => parse_i32_tok(b@.skip(pos as int)) is None,
        },
{
    let p = ws_to(b, pos);
    let ghost t = b@.skip(p as int);
    if p < b.len() && b[p] == 45 {
        let ps = p + 1;
        let pe = digits_end(b, ps);
        let ghost ds = b@.subrange(ps as int, pe as int);
        proof {
            assert(t[0] == b@[p as int]);
            assert(t.drop_first() =~= b@.skip(ps as int));
            assert(b@.skip(ps as int) =~= ds + b@.skip(pe as int));
            assert(all_digits(ds));
            if pe < b.len() {
                assert(b@.skip(pe as int)[0] == b@[pe as int]);
            }
            lemma_take_digits_of(ds, b@.skip(pe as int));
        }
        match read_u64_field(slice_subrange(b, ps, pe)) {
            Some(m) => {
                if m <= 0x8000_0000 {
                    Some(((-(m as i64)) as i32, pe))
                } else {
                    None
                }
            },
            None => None,
        }
    } else {
        let pe = digits_end(b, p);
        let ghost ds = b@.subrange(p as int, pe as int);
        proof {
            if p < b.len() {
                assert(t[0] == b@[p as int]);
            }
            assert(t =~= ds + b@.skip(pe as int));
            assert(all_digits(ds));
            if pe < b.len() {
                assert(b@.skip(pe as int)[0] == b@[pe as int]);
            }
            lemma_take_digits_of(ds, b@.skip(pe as int));
        }
        match read_u64_field(slice_subrange(b, p, pe)) {
            Some(m) => {
                if m <= 0x7fff_ffff {
                    Some((m as i32, pe))
                } else {
                    None
                }
            },
            None => None,
        }
    }
}

/// An unsigned integer token in `u64` range, as `parse_u64_tok` describes.
fn u64_tok_at(b: &[u8], pos: usize) -> (r: Option<(u64, usize)>)
    requires
        pos <= b@.len(),
    ensures
        match r {
            Some((v, np)) => pos <= np <= b@.len() && parse_u64_tok(b@.skip(pos as int)) == Some(
                (v, b@.skip(np as int)),
            ),
            None => parse_u64_tok(b@.skip(pos as int)) is None,
        },
{
    let p = ws_to(b, pos);
    let pe = digits_end(b, p);
    let ghost ds = b@.subrange(p as int, pe as int);
    proof {
        assert(b@.skip(p as int) =~= ds + b@.skip(pe as int));
        assert(all_digits(ds));
        if pe < b.len() {
            assert(b@.skip(pe as int)[0] == b@[pe as int]);
        }
        lemma_take_digits_of(ds, b@.skip(pe as int));
    }
    match read_u64_field(slice_subrange(b, p, pe)) {
        Some(m) => Some((m, pe)),
        None => None,
    }
}

/// A quoted label, as `parse_str_tok` describes; hands back the label the
/// contents stand for.
fn str_tok_at(b: &[u8], pos: usize) -> (r: Option<(ButtonLabel, usize)>)
    requires
        pos <= b@.len(),
    ensures
        match r {
            Some((lab, np)) => pos <= np <= b@.len() && (parse_str_tok(b@.skip(pos as int))
                matches Some((c, rst)) && lab == label_of_bytes(c) && rst == b@.skip(np as int)),
            None => parse_str_tok(b@.skip(pos as int)) is None,
        },
{
    let p = ws_to(b, pos);
    let ghost t = b@.skip(p as int);
    if p == b.len() || b[p] != 34 {
        proof {
            if p < b.len() {
                assert(t[0] == b@[p as int]);
            }
        }
        return None;
    }
    let ps = p + 1;
    let n = b.len();
    let mut pe = ps;
    while pe < n && b[pe] != 34 && b[pe] != 92
        invariant
            ps <= pe <= n,
            n == b@.len(),
            forall|k: int| ps <= k < pe ==> #[trigger] b@[k] != 34 && b@[k] != 92,
        decreases n - pe,
    {
        pe = pe + 1;
    }
    let ghost c = b@.subrange(ps as int, pe as int);
    proof {
        assert(t[0] == 34);
        assert(t.drop_first() =~= b@.skip(ps as int));
        assert(b@.skip(ps as int) =~= c + b@.skip(pe as int));
        if pe < n {
            assert(b@.skip(pe as int)[0] == b@[pe as int]);
        }
        lemma_take_plain_of(c, b@.skip(pe as int));
    }
    if pe == n || b[pe] == 92 {
        return None;
    }
    let lab = label_from(slice_subrange(b, ps, pe));
    proof {
        assert(b@.skip(pe as int)[0] == b@[pe as int]);
        assert(b@.skip(pe as int).drop_first() =~= b@.skip(pe + 1));
    }
    Some((lab, pe + 1))
}

/// The time field and closing brace, as `parse_time_and_close` describes.
fn time_close_at(b: &[u8], pos: usize, x: i32, y: i32, button: Option<ButtonLabel>) -> (r: Option<
    (MouseEvent, usize),
>)
    requires
        pos <= b@.len(),
    ensures
        match r {
            Some((e, np)) => pos <= np <= b@.len() && parse_time_and_close(
                b@.skip(pos as int),
                x,
                y,
                button,
            ) == Some((e, b@.skip(np as int))),
            None => parse_time_and_close(b@.skip(pos as int), x, y, button) is None,
        },
{
    let mut tk: Vec<u8> = Vec::new();
    tk.push(34);
    tk.push(116);
    tk.push(105);
    tk.push(109);
    tk.push(101);
    tk.push(34);
    proof {
        assert(tk@ =~= key_time());
    }
    let p1 = match tok_at(b, pos, tk.as_slice()) {
        Some(p1) => p1,
        None => {
            return None;
        },
    };
    let mut cl: Vec<u8> = Vec::new();
    cl.push(58);
    proof {
        assert(cl@ =~= seq![58u8]);
    }
    let p2 = match tok_at(b, p1, cl.as_slice()) {
        Some(p2) => p2,
        None => {
            return None;
        },
    };
    let (t, p3) = match u64_tok_at(b, p2) {
        Some(r) => r,
        None => {
            return None;
        },
    };
    let mut br: Vec<u8> = Vec::new();
    br.push(125);
    proof {
        assert(br@ =~= seq![125u8]);
    }
    let p4 = match tok_at(b, p3, br.as_slice()) {
        Some(p4) => p4,
        None => {
            return None;
        },
    };
    Some((MouseEvent { x, y, button, time_us: t }, p4))
}

/// One object, as `parse_obj` describes.
fn obj_at(b: &[u8], pos: usize) -> (r: Option<(MouseEvent, usize)>)
    requires
        pos <= b@.len(),
    ensures
        match r {
            Some((e, np)) => pos <= np <= b@.len() && parse_obj(b@.skip(pos as int)) == Some((
                e,
                b@.skip(np as int),
            )),
            None => parse_obj(b@.skip(pos as int)) is None,
        },
{
    let mut ob: Vec<u8> = Vec::new();
    ob.push(123);
    proof {
        assert(ob@ =~= seq![123u8]);
    }
    let p1 = match tok_at(b, pos, ob.as_slice()) {
        Some(p) => p,
        None => {
            return None;
        },
    };
    let mut kx: Vec<u8> = Vec::new();
    kx.push(34);
    kx.push(120);
    kx.push(34);
    proof {
        assert(kx@ =~= key_x());
    }
    let p2 = match tok_at(b, p1, kx.as_slice()) {
        Some(p) => p,
        None => {
            return None;
        },
    };
    let mut cl: Vec<u8> = Vec::new();
    cl.push(58);
    proof {
        assert(cl@ =~= seq![58u8]);
    }
    let p3 = match tok_at(b, p2, cl.as_slice()) {
        Some(p) => p,
        None => {
            return None;
        },
    };
    let (x, p4) = match i32_tok_at(b, p3) {
        Some(r) => r,
        None => {
            return None;
        },
    };
    let mut cm: Vec<u8> = Vec::new();
    cm.push(44);
    proof {
        assert(cm@ =~= seq![44u8]);
    }
    let p5 = match tok_at(b, p4, cm.as_slice()) {
        Some(p) => p,
        None => {
            return None;
        },
    };
    let mut ky: Vec<u8> = Vec::new();
    ky.push(34);
    ky.push(121);
    ky.push(34);
    proof {
        assert(ky@ =~= key_y());
    }
    let p6 = match tok_at(b, p5, ky.as_slice()) {
        Some(p) => p,
        None => {
            return None;
        },
    };
    let p7 = match tok_at(b, p6, cl.as_slice()) {
        Some(p) => p,
        None => {
            return None;
        },
    };
    let (y, p8) = match i32_tok_at(b, p7) {
        Some(r) => r,
        None => {
            return None;
        },
    };
    let p9 = match tok_at(b, p8, cm.as_slice()) {
        Some(p) => p,
        None => {
            return None;
        },
    };
    let mut kb: Vec<u8> = Vec::new();
    kb.push(34);
    kb.push(98);
    kb.push(117);
    kb.push(116);
    kb.push(116);
    kb.push(111);
    kb.push(110);
    kb.push(34);
    proof {
        assert(kb@ =~= key_button());
    }
    match tok_at(b, p9, kb.as_slice()) {
        None => {
            // No button field: the time field follows directly.
            time_close_at(b, p9, x, y, None)
        },
        Some(p10) => {
            let p11 = match tok_at(b, p10, cl.as_slice()) {
                Some(p) => p,
                None => {
                    return None;
                },
            };
            let mut nl: Vec<u8> = Vec::new();
            nl.push(110);
            nl.push(117);
            nl.push(108);
            nl.push(108);
            proof {
                assert(nl@ =~= null_tok());
            }
            match tok_at(b, p11, nl.as_slice()) {
                Some(p12) => {
                    let p13 = match tok_at(b, p12, cm.as_slice()) {
                        Some(p) => p,
                        None => {
                            return None;
                        },
                    };
                    time_close_at(b, p13, x, y, None)
                },
                None => {
                    let (lab, p12) = match str_tok_at(b, p11) {
                        Some(r) => r,
                        None => {
                            return None;
                        },
                    };
                    let p13 = match tok_at(b, p12, cm.as_slice()) {
                        Some(p) => p,
                        None => {
                            return None;
                        },
                    };
                    time_close_at(b, p13, x, y, Some(lab))
                },
            }
        },
    }
}

/// Reads structured text back into a timeline; agrees with `decode_spec`
/// input for input, success and error alike.
#[verifier::rlimit(100)]
#[verifier::spinoff_prover]
pub fn decode(b: &[u8]) -> (r: Result<Vec<MouseEvent>, DecodeError>)
    ensures
        decode_matches(r, decode_spec(b@)),
{
    let mut lb: Vec<u8> = Vec::new();
    lb.push(91);
    proof {
        assert(lb@ =~= seq![91u8]);
        assert(b@.skip(0) =~= b@);
    }
    let p1 = match tok_at(b, 0, lb.as_slice()) {
        Some(p) => p,
        None => {
            return Err(DecodeError::Malformed);
        },
    };
    let mut rb: Vec<u8> = Vec::new();
    rb.push(93);
    proof {
        assert(rb@ =~= seq![93u8]);
    }
    match tok_at(b, p1, rb.as_slice()) {
        Some(p2) => {
            let p3 = ws_to(b, p2);
            if p3 == b.len() {
                proof {
                    assert(b@.skip(p3 as int).len() == 0);
                }
                return Ok(Vec::new());
            } else {
                proof {
                    assert(b@.skip(p3 as int).len() > 0);
                }
                return Err(DecodeError::Malformed);
            }
        },
        None => {},
    }
    let ghost b1 = b@.skip(p1 as int);
    let mut out: Vec<MouseEvent> = Vec::new();
    let mut pos: usize = p1;
    let mut fuel: usize = b.len() - p1;
    proof {
        assert(b1.len() == fuel);
        if let Some((sq, r)) = parse_elems(b1, fuel as nat) {
            assert(out@ + sq =~= sq);
        }
    }
    loop
        invariant
            p1 <= pos <= b@.len(),
            parse_elems(b1, b1.len()) == match parse_elems(b@.skip(pos as int), fuel as nat) {
                Some((sq, r)) => Some::<(Seq<MouseEvent>, Seq<u8>)>((out@ + sq, r)),
                None => None::<(Seq<MouseEvent>, Seq<u8>)>,
            },
            b1 == b@.skip(p1 as int),
            parse_doc(b@) == (match parse_elems(b1, b1.len()) {
                Some((sq, r)) => if skip_ws(r).len() == 0 {
                    Some::<Seq<MouseEvent>>(sq)
                } else {
                    None::<Seq<MouseEvent>>
                },
                None => None::<Seq<MouseEvent>>,
            }),
        decreases fuel,
    {
        if fuel == 0 {
            return Err(DecodeError::Malformed);
        }
        match obj_at(b, pos) {
            None => {
                return Err(DecodeError::Malformed);
            },
            Some((e, np)) => {
                let mut cm: Vec<u8> = Vec::new();
                cm.push(44);
                proof {
                    assert(cm@ =~= seq![44u8]);
                }
                match tok_at(b, np, cm.as_slice()) {
                    Some(np2) => {
                        proof {
                            if let Some((sq, r)) = parse_elems(
                                b@.skip(np2 as int),
                                (fuel - 1) as nat,
                            ) {
                                assert(out@ + (seq![e] + sq) =~= out@.push(e) + sq);
                            }
                        }
                        out.push(e);
                        pos = np2;
                        fuel = fuel - 1;
                    },
                    None => {
                        let mut rb2: Vec<u8> = Vec::new();
                        rb2.push(93);
                        proof {
                            assert(rb2@ =~= seq![93u8]);
                        }
                        match tok_at(b, np, rb2.as_slice()) {
                            Some(np2) => {
                                proof {
                                    assert(out@ + seq![e] =~= out@.push(e));
                                }
                                out.push(e);
                                let p3 = ws_to(b, np2);
                                if p3 == b.len() {
                                    proof {
                                        assert(b@.skip(p3 as int).len() == 0);
                                    }
                                    return Ok(out);
                                } else {
                                    proof {
                                        assert(b@.skip(p3 as int).len() > 0);
                                    }
                                    return Err(DecodeError::Malformed);
                                }
                            },
                            None => {
                                return Err(DecodeError::Malformed);
                            },
                        }
                    },
                }
            },
        }
    }
}

} // verus!
