use vstd::prelude::*;
use crate::{label_bytes, label_from, label_of_bytes, push_label, ButtonLabel, MouseEvent};
use crate::codec::{decode_matches, DecodeError};
use vstd::slice::slice_subrange;

verus! {

// The compact-binary codec: a little-endian 64-bit sample count, then per
// sample a 32-bit signed x, a 32-bit signed y, a tagged optional
// length-prefixed label text, and a 64-bit time, all little endian.

/// `k` little-endian bytes of `n`.
pub open spec fn le_bytes(n: nat, k: nat) -> Seq<u8>
    decreases k,
{
    if k == 0 {
        Seq::empty()
    } else {
        seq![(n % 256) as u8] + le_bytes(n / 256, (k - 1) as nat)
    }
}

/// The value little-endian bytes stand for.
pub open spec fn le_val(s: Seq<u8>) -> nat
    decreases s.len(),
{
    if s.len() == 0 {
        0
    } else {
        (s[0] + 256 * le_val(s.drop_first())) as nat
    }
}

pub open spec fn pow256(k: nat) -> nat
    decreases k,
{
    if k == 0 {
        1
    } else {
        256 * pow256((k - 1) as nat)
    }
}

pub proof fn lemma_le_bytes_len(n: nat, k: nat)
    ensures
        le_bytes(n, k).len() == k,
    decreases k,
{
    if k > 0 {
        lemma_le_bytes_len(n / 256, (k - 1) as nat);
    }
}

/// Reading back `k` little-endian bytes of a value below `256^k` gives the
/// value written.
pub proof fn lemma_le_round(n: nat, k: nat)
    requires
        n < pow256(k),
    ensures
        le_val(le_bytes(n, k)) == n,
    decreases k,
{
    if k == 0 {
    } else {
        assert(n == 256 * (n / 256) + n % 256) by {
            vstd::arithmetic::div_mod::lemma_fundamental_div_mod(n as int, 256);
        }
        assert(n / 256 < pow256((k - 1) as nat)) by {
            if n / 256 >= pow256((k - 1) as nat) {
                assert(256 * (n / 256) >= 256 * pow256((k - 1) as nat)) by {
                    vstd::arithmetic::mul::lemma_mul_inequality(
                        pow256((k - 1) as nat) as int,
                        (n / 256) as int,
                        256,
                    );
                }
            }
        }
        lemma_le_round(n / 256, (k - 1) as nat);
        assert(le_bytes(n, k).drop_first() =~= le_bytes(n / 256, (k - 1) as nat));
    }
}

pub proof fn lemma_le_val_bound(s: Seq<u8>)
    ensures
        le_val(s) < pow256(s.len() as nat),
    decreases s.len(),
{
    if s.len() > 0 {
        lemma_le_val_bound(s.drop_first());
        assert(le_val(s) == s[0] + 256 * le_val(s.drop_first()));
        assert(256 * le_val(s.drop_first()) <= 256 * (pow256((s.len() - 1) as nat) - 1)) by {
            vstd::arithmetic::mul::lemma_mul_inequality(
                le_val(s.drop_first()) as int,
                pow256((s.len() - 1) as nat) as int - 1,
                256,
            );
        }
    }
}

/// The unsigned 32-bit pattern a signed coordinate is stored as.
pub open spec fn u32_of_i32(x: i32) -> nat {
    if x >= 0 {
        x as nat
    } else {
        (x + 0x1_0000_0000) as nat
    }
}

pub open spec fn i32_of_u32(n: nat) -> i32 {
    if n < 0x8000_0000 {
        n as i32
    } else {
        (n - 0x1_0000_0000) as i32
    }
}

pub proof fn lemma_i32_round(x: i32)
    ensures
        u32_of_i32(x) < pow256(4),
        i32_of_u32(u32_of_i32(x)) == x,
{
    assert(pow256(4) == 0x1_0000_0000) by {
        reveal_with_fuel(pow256, 5);
    }
}

/// The stored form of the optional click label: a tag byte, then for a
/// present label its length and text.
pub open spec fn opt_label_bytes(b: Option<ButtonLabel>) -> Seq<u8> {
    match b {
        None => seq![0u8],
        Some(l) => seq![1u8] + le_bytes(label_bytes(l).len() as nat, 8) + label_bytes(l),
    }
}

pub open spec fn sample_bytes(e: MouseEvent) -> Seq<u8> {
    le_bytes(u32_of_i32(e.x), 4) + le_bytes(u32_of_i32(e.y), 4) + opt_label_bytes(e.button)
        + le_bytes(e.time_us as nat, 8)
}

pub open spec fn samples_bytes(s: Seq<MouseEvent>) -> Seq<u8>
    decreases s.len(),
{
    if s.len() == 0 {
        Seq::empty()
    } else {
        sample_bytes(s.first()) + samples_bytes(s.drop_first())
    }
}

/// The whole encoding: the count, then every sample in order.
pub open spec fn encode_spec(s: Seq<MouseEvent>) -> Seq<u8> {
    le_bytes(s.len() as nat, 8) + samples_bytes(s)
}

/// One sample read off the front; gives the sample and the rest.
pub open spec fn dec_sample(b: Seq<u8>) -> Result<(MouseEvent, Seq<u8>), DecodeError> {
    if b.len() < 4 {
        Err(DecodeError::Truncated)
    } else {
        let x = i32_of_u32(le_val(b.take(4)));
        let b1 = b.skip(4);
        if b1.len() < 4 {
            Err(DecodeError::Truncated)
        } else {
            let y = i32_of_u32(le_val(b1.take(4)));
            let b2 = b1.skip(4);
            if b2.len() < 1 {
                Err(DecodeError::Truncated)
            } else if b2[0] == 0 {
                let b3 = b2.skip(1);
                if b3.len() < 8 {
                    Err(DecodeError::Truncated)
                } else {
                    Ok((
                        MouseEvent { x, y, button: None, time_us: le_val(b3.take(8)) as u64 },
                        b3.skip(8),
                    ))
                }
            } else if b2[0] == 1 {
                let b3 = b2.skip(1);
                if b3.len() < 8 {
                    Err(DecodeError::Truncated)
                } else {
                    let ll = le_val(b3.take(8));
                    let b4 = b3.skip(8);
                    if b4.len() < ll {
                        Err(DecodeError::Truncated)
                    } else {
                        let lab = label_of_bytes(b4.take(ll as int));
                        let b5 = b4.skip(ll as int);
                        if b5.len() < 8 {
                            Err(DecodeError::Truncated)
                        } else {
                            Ok((
                                MouseEvent {
                                    x,
                                    y,
                                    button: Some(lab),
                                    time_us: le_val(b5.take(8)) as u64,
                                },
                                b5.skip(8),
                            ))
                        }
                    }
                }
            } else {
                Err(DecodeError::BadTag)
            }
        }
    }
}

pub open spec fn dec_samples(b: Seq<u8>, n: nat) -> Result<(Seq<MouseEvent>, Seq<u8>), DecodeError>
    decreases n,
{
    if n == 0 {
        Ok((Seq::empty(), b))
    } else {
        match dec_sample(b) {
            Err(e) => Err(e),
            Ok((e, r)) => match dec_samples(r, (n - 1) as nat) {
                Ok((s, r2)) => Ok((seq![e] + s, r2)),
                Err(er) => Err(er),
            },
        }
    }
}

/// The whole decoding: the count, then exactly that many samples, with
/// nothing left over.
pub open spec fn decode_spec(b: Seq<u8>) -> Result<Seq<MouseEvent>, DecodeError> {
    if b.len() < 8 {
        Err(DecodeError::Truncated)
    } else {
        match dec_samples(b.skip(8), le_val(b.take(8))) {
            Err(e) => Err(e),
            Ok((s, rest)) => if rest.len() == 0 {
                Ok(s)
            } else {
                Err(DecodeError::Trailing)
            },
        }
    }
}

fn put_u32_le(out: &mut Vec<u8>, n: u32)
    ensures
        final(out)@ == old(out)@ + le_bytes(n as nat, 4),
{
    let b0 = (n % 256) as u8;
    let n1 = n / 256;
    let b1 = (n1 % 256) as u8;
    let n2 = n1 / 256;
    let b2 = (n2 % 256) as u8;
    let n3 = n2 / 256;
    let b3 = (n3 % 256) as u8;
    out.push(b0);
    out.push(b1);
    out.push(b2);
    out.push(b3);
    proof {
        reveal_with_fuel(le_bytes, 5);
        assert(le_bytes(n as nat, 4) =~= seq![b0, b1, b2, b3]);
        assert(out@ =~= old(out)@ + le_bytes(n as nat, 4));
    }
}

fn put_u64_le(out: &mut Vec<u8>, n: u64)
    ensures
        final(out)@ == old(out)@ + le_bytes(n as nat, 8),
{
    let b0 = (n % 256) as u8;
    let n1 = n / 256;
    let b1 = (n1 % 256) as u8;
    let n2 = n1 / 256;
    let b2 = (n2 % 256) as u8;
    let n3 = n2 / 256;
    let b3 = (n3 % 256) as u8;
    let n4 = n3 / 256;
    let b4 = (n4 % 256) as u8;
    let n5 = n4 / 256;
    let b5 = (n5 % 256) as u8;
    let n6 = n5 / 256;
    let b6 = (n6 % 256) as u8;
    let n7 = n6 / 256;
    let b7 = (n7 % 256) as u8;
    out.push(b0);
    out.push(b1);
    out.push(b2);
    out.push(b3);
    out.push(b4);
    out.push(b5);
    out.push(b6);
    out.push(b7);
    proof {
        reveal_with_fuel(le_bytes, 9);
        assert(le_bytes(n as nat, 8) =~= seq![b0, b1, b2, b3, b4, b5, b6, b7]);
        assert(out@ =~= old(out)@ + le_bytes(n as nat, 8));
    }
}

fn get_u32_le(s: &[u8], pos: usize) -> (r: u32)
    requires
        pos + 4 <= s@.len(),
    ensures
        r as nat == le_val(s@.subrange(pos as int, pos as int + 4)),
{
    let b0 = s[pos] as u32;
    let b1 = s[pos + 1] as u32;
    let b2 = s[pos + 2] as u32;
    let b3 = s[pos + 3] as u32;
    let r = b0 + 256 * b1 + 65536 * b2 + 16777216 * b3;
    proof {
        let q = s@.subrange(pos as int, pos as int + 4);
        reveal_with_fuel(le_val, 5);
        assert(q.drop_first() =~= s@.subrange(pos as int + 1, pos as int + 4));
        assert(q.drop_first().drop_first() =~= s@.subrange(pos as int + 2, pos as int + 4));
        assert(q.drop_first().drop_first().drop_first()
            =~= s@.subrange(pos as int + 3, pos as int + 4));
        assert(q.drop_first().drop_first().drop_first().drop_first() =~= Seq::<u8>::empty());
        assert(le_val(q) == b0 + 256 * (b1 + 256 * (b2 + 256 * b3)));
    }
    r
}

fn get_u64_le(s: &[u8], pos: usize) -> (r: u64)
    requires
        pos + 8 <= s@.len(),
    ensures
        r as nat == le_val(s@.subrange(pos as int, pos as int + 8)),
{
    let b0 = s[pos] as u64;
    let b1 = s[pos + 1] as u64;
    let b2 = s[pos + 2] as u64;
    let b3 = s[pos + 3] as u64;
    let b4 = s[pos + 4] as u64;
    let b5 = s[pos + 5] as u64;
    let b6 = s[pos + 6] as u64;
    let b7 = s[pos + 7] as u64;
    let r = b0 + 256 * b1 + 65536 * b2 + 16777216 * b3 + 4294967296 * b4 + 1099511627776 * b5
        + 281474976710656 * b6 + 72057594037927936 * b7;
    proof {
        let q = s@.subrange(pos as int, pos as int + 8);
        reveal_with_fuel(le_val, 9);
        assert(q.drop_first() =~= s@.subrange(pos as int + 1, pos as int + 8));
        assert(q.drop_first().drop_first() =~= s@.subrange(pos as int + 2, pos as int + 8));
        assert(q.drop_first().drop_first().drop_first()
            =~= s@.subrange(pos as int + 3, pos as int + 8));
        assert(q.drop_first().drop_first().drop_first().drop_first()
            =~= s@.subrange(pos as int + 4, pos as int + 8));
        assert(q.drop_first().drop_first().drop_first().drop_first().drop_first()
            =~= s@.subrange(pos as int + 5, pos as int + 8));
        assert(q.drop_first().drop_first().drop_first().drop_first().drop_first().drop_first()
            =~= s@.subrange(pos as int + 6, pos as int + 8));
        assert(q.drop_first().drop_first().drop_first().drop_first().drop_first().drop_first()
            .drop_first() =~= s@.subrange(pos as int + 7, pos as int + 8));
        assert(q.drop_first().drop_first().drop_first().drop_first().drop_first().drop_first()
            .drop_first().drop_first() =~= Seq::<u8>::empty());
        assert(le_val(q) == b0 + 256 * (b1 + 256 * (b2 + 256 * (b3 + 256 * (b4 + 256 * (b5 + 256
            * (b6 + 256 * b7)))))));
    }
    r
}

proof fn lemma_samples_snoc(s: Seq<MouseEvent>, e: MouseEvent)
    ensures
        samples_bytes(s.push(e)) == samples_bytes(s) + sample_bytes(e),
    decreases s.len(),
{
    if s.len() == 0 {
        assert(s.push(e).first() == e);
        assert(s.push(e).drop_first() =~= Seq::<MouseEvent>::empty());
        assert(samples_bytes(s.push(e).drop_first()) =~= Seq::<u8>::empty());
        assert(samples_bytes(s.push(e)) =~= samples_bytes(s) + sample_bytes(e));
    } else {
        assert(s.push(e).first() == s.first());
        assert(s.push(e).drop_first() =~= s.drop_first().push(e));
        lemma_samples_snoc(s.drop_first(), e);
        assert(samples_bytes(s.push(e)) =~= samples_bytes(s) + sample_bytes(e));
    }
}

/// Writes a timeline in the compact-binary form.
#[verifier::rlimit(80)]
pub fn encode(events: &Vec<MouseEvent>) -> (r: Vec<u8>)
    ensures
        r@ == encode_spec(events@),
{
    let mut out: Vec<u8> = Vec::new();
    let n = events.len();
    put_u64_le(&mut out, n as u64);
    proof {
        assert(samples_bytes(events@.take(0)) =~= Seq::<u8>::empty());
        assert(out@ =~= le_bytes(events@.len() as nat, 8) + samples_bytes(events@.take(0)));
    }
    let mut i: usize = 0;
    while i < n
        invariant
            0 <= i <= n,
            n == events@.len(),
            out@ == le_bytes(events@.len() as nat, 8) + samples_bytes(events@.take(i as int)),
        decreases n - i,
    {
        let e = events[i];
        let ghost before = out@;
        let ux: u32 = if e.x >= 0 {
            e.x as u32
        } else {
            ((e.x as i64) + 0x1_0000_0000) as u32
        };
        let uy: u32 = if e.y >= 0 {
            e.y as u32
        } else {
            ((e.y as i64) + 0x1_0000_0000) as u32
        };
        proof {
            assert(ux as nat == u32_of_i32(e.x));
            assert(uy as nat == u32_of_i32(e.y));
        }
        put_u32_le(&mut out, ux);
        put_u32_le(&mut out, uy);
        match e.button {
            None => {
                out.push(0);
            },
            Some(l) => {
                out.push(1);
                let ll: u64 = match l {
                    ButtonLabel::Left => 4,
                    ButtonLabel::Right => 5,
                    ButtonLabel::Middle => 6,
                    ButtonLabel::Other => 5,
                };
                proof {
                    assert(ll as nat == label_bytes(l).len());
                }
                put_u64_le(&mut out, ll);
                push_label(&mut out, l);
            },
        }
        put_u64_le(&mut out, e.time_us);
        proof {
            assert(out@ =~= before + sample_bytes(e));
            lemma_samples_snoc(events@.take(i as int), e);
            assert(events@.take(i + 1) =~= events@.take(i as int).push(e));
            assert(out@ =~= le_bytes(events@.len() as nat, 8) + samples_bytes(events@.take(i + 1)));
        }
        i = i + 1;
    }
    proof {
        assert(events@.take(n as int) =~= events@);
    }
    out
}

/// Reads one sample at `pos`; on success gives the sample and the position
/// just past it.
fn read_sample(b: &[u8], pos: usize) -> (r: Result<(MouseEvent, usize), DecodeError>)
    requires
        pos <= b@.len(),
    ensures
        match r {
            Ok((e, np)) => pos <= np <= b@.len() && dec_sample(b@.skip(pos as int)) == Ok::<
                (MouseEvent, Seq<u8>),
                DecodeError,
            >((e, b@.skip(np as int))),
            Err(er) => dec_sample(b@.skip(pos as int)) == Err::<
                (MouseEvent, Seq<u8>),
                DecodeError,
            >(er),
        },
{
    let ghost whole = b@.skip(pos as int);
    if b.len() - pos < 4 {
        return Err(DecodeError::Truncated);
    }
    let xv = get_u32_le(b, pos);
    let x: i32 = if xv < 0x8000_0000 {
        xv as i32
    } else {
        ((xv as i64) - 0x1_0000_0000) as i32
    };
    let p1 = pos + 4;
    proof {
        assert(whole.take(4) =~= b@.subrange(pos as int, pos as int + 4));
        assert(x == i32_of_u32(le_val(whole.take(4))));
        assert(whole.skip(4) =~= b@.skip(p1 as int));
    }
    if b.len() - p1 < 4 {
        return Err(DecodeError::Truncated);
    }
    let yv = get_u32_le(b, p1);
    let y: i32 = if yv < 0x8000_0000 {
        yv as i32
    } else {
        ((yv as i64) - 0x1_0000_0000) as i32
    };
    let p2 = p1 + 4;
    proof {
        assert(b@.skip(p1 as int).take(4) =~= b@.subrange(p1 as int, p1 as int + 4));
        assert(y == i32_of_u32(le_val(b@.skip(p1 as int).take(4))));
        assert(b@.skip(p1 as int).skip(4) =~= b@.skip(p2 as int));
    }
    if b.len() - p2 < 1 {
        return Err(DecodeError::Truncated);
    }
    let tag = b[p2];
    let p3 = p2 + 1;
    proof {
        assert(b@.skip(p2 as int)[0] == b@[p2 as int]);
        assert(b@.skip(p2 as int).skip(1) =~= b@.skip(p3 as int));
    }
    if tag == 0 {
        if b.len() - p3 < 8 {
            return Err(DecodeError::Truncated);
        }
        let t = get_u64_le(b, p3);
        let np = p3 + 8;
        proof {
            assert(b@.skip(p3 as int).take(8) =~= b@.subrange(p3 as int, p3 as int + 8));
            lemma_le_val_bound(b@.skip(p3 as int).take(8));
            assert(pow256(8) == 0x1_0000_0000_0000_0000) by {
                reveal_with_fuel(pow256, 9);
            }
            assert(b@.skip(p3 as int).skip(8) =~= b@.skip(np as int));
        }
        Ok((MouseEvent { x, y, button: None, time_us: t }, np))
    } else if tag == 1 {
        if b.len() - p3 < 8 {
            return Err(DecodeError::Truncated);
        }
        let ll = get_u64_le(b, p3);
        let p4 = p3 + 8;
        proof {
            assert(b@.skip(p3 as int).take(8) =~= b@.subrange(p3 as int, p3 as int + 8));
            assert(b@.skip(p3 as int).skip(8) =~= b@.skip(p4 as int));
        }
        if ll > (b.len() - p4) as u64 {
            return Err(DecodeError::Truncated);
        }
        let l = ll as usize;
        let lab = label_from(slice_subrange(b, p4, p4 + l));
        let p5 = p4 + l;
        proof {
            assert(b@.skip(p4 as int).take(ll as int) =~= b@.subrange(p4 as int, p4 as int
                + ll as int));
            assert(b@.skip(p4 as int).skip(ll as int) =~= b@.skip(p5 as int));
        }
        if b.len() - p5 < 8 {
            return Err(DecodeError::Truncated);
        }
        let t = get_u64_le(b, p5);
        let np = p5 + 8;
        proof {
            assert(b@.skip(p5 as int).take(8) =~= b@.subrange(p5 as int, p5 as int + 8));
            lemma_le_val_bound(b@.skip(p5 as int).take(8));
            assert(pow256(8) == 0x1_0000_0000_0000_0000) by {
                reveal_with_fuel(pow256, 9);
            }
            assert(b@.skip(p5 as int).skip(8) =~= b@.skip(np as int));
        }
        Ok((MouseEvent { x, y, button: Some(lab), time_us: t }, np))
    } else {
        Err(DecodeError::BadTag)
    }
}

/// Reads compact-binary bytes back into a timeline; agrees with
/// `decode_spec` input for input, success and error alike.
pub fn decode(b: &[u8]) -> (r: Result<Vec<MouseEvent>, DecodeError>)
    ensures
        decode_matches(r, decode_spec(b@)),
{
    if b.len() < 8 {
        return Err(DecodeError::Truncated);
    }
    let n = get_u64_le(b, 0);
    proof {
        assert(b@.subrange(0, 8) =~= b@.take(8));
    }
    let mut out: Vec<MouseEvent> = Vec::new();
    let mut pos: usize = 8;
    let mut k: u64 = 0;
    proof {
        assert(b@.skip(8) =~= b@.skip(pos as int));
        if let Ok((sq, r)) = dec_samples(b@.skip(8), n as nat) {
            assert(out@ + sq =~= sq);
        }
    }
    while k < n
        invariant
            8 <= pos <= b@.len(),
            k <= n,
            n as nat == le_val(b@.take(8)),
            b@.len() >= 8,
            dec_samples(b@.skip(8), n as nat) == match dec_samples(
                b@.skip(pos as int),
                (n - k) as nat,
            ) {
                Ok((sq, r)) => Ok::<(Seq<MouseEvent>, Seq<u8>), DecodeError>((out@ + sq, r)),
                Err(e) => Err::<(Seq<MouseEvent>, Seq<u8>), DecodeError>(e),
            },
        decreases n - k,
    {
        match read_sample(b, pos) {
            Err(e) => {
                proof {
                    assert(dec_samples(b@.skip(pos as int), (n - k) as nat)
                        == Err::<(Seq<MouseEvent>, Seq<u8>), DecodeError>(e));
                }
                return Err(e);
            },
            Ok((e, np)) => {
                proof {
                    assert(dec_samples(b@.skip(pos as int), (n - k) as nat) == (
                        match dec_samples(b@.skip(np as int), (n - k - 1) as nat) {
                            Ok((sq, r)) => Ok::<(Seq<MouseEvent>, Seq<u8>), DecodeError>((
                                seq![e] + sq,
                                r,
                            )),
                            Err(er) => Err::<(Seq<MouseEvent>, Seq<u8>), DecodeError>(er),
                        }
                    ));
                    if let Ok((sq, r)) = dec_samples(b@.skip(np as int), (n - k - 1) as nat) {
                        assert(out@ + (seq![e] + sq) =~= out@.push(e) + sq);
                    }
                }
                out.push(e);
                pos = np;
                k = k + 1;
            },
        }
    }
    proof {
        assert(dec_samples(b@.skip(pos as int), 0) == Ok::<(Seq<MouseEvent>, Seq<u8>), DecodeError>(
            (Seq::<MouseEvent>::empty(), b@.skip(pos as int)),
        ));
        if let Ok((sq, r)) = dec_samples(b@.skip(8), n as nat) {
            assert(out@ + Seq::<MouseEvent>::empty() =~= out@);
        }
    }
    if pos == b.len() {
        Ok(out)
    } else {
        proof {
            assert(b@.skip(pos as int).len() > 0);
        }
        Err(DecodeError::Trailing)
    }
}

/// Decoding an encoded sample off the front of any text gives the sample
/// and the rest untouched.
proof fn lemma_dec_sample_of(e: MouseEvent, rest: Seq<u8>)
    ensures
        dec_sample(sample_bytes(e) + rest) == Ok::<(MouseEvent, Seq<u8>), DecodeError>((e, rest)),
{
    let cx = le_bytes(u32_of_i32(e.x), 4);
    let cy = le_bytes(u32_of_i32(e.y), 4);
    let ob = opt_label_bytes(e.button);
    let ct = le_bytes(e.time_us as nat, 8);
    lemma_le_bytes_len(u32_of_i32(e.x), 4);
    lemma_le_bytes_len(u32_of_i32(e.y), 4);
    lemma_le_bytes_len(e.time_us as nat, 8);
    lemma_i32_round(e.x);
    lemma_i32_round(e.y);
    lemma_le_round(u32_of_i32(e.x), 4);
    lemma_le_round(u32_of_i32(e.y), 4);
    assert(pow256(8) == 0x1_0000_0000_0000_0000) by {
        reveal_with_fuel(pow256, 9);
    }
    lemma_le_round(e.time_us as nat, 8);
    let whole = sample_bytes(e) + rest;
    assert(whole.take(4) =~= cx);
    let b1 = whole.skip(4);
    assert(b1 =~= cy + (ob + (ct + rest)));
    assert(b1.take(4) =~= cy);
    let b2 = b1.skip(4);
    assert(b2 =~= ob + (ct + rest));
    match e.button {
        None => {
            assert(b2 =~= seq![0u8] + (ct + rest));
            assert(b2[0] == 0);
            let b3 = b2.skip(1);
            assert(b3 =~= ct + rest);
            assert(b3.take(8) =~= ct);
            assert(b3.skip(8) =~= rest);
        },
        Some(l) => {
            let lb = label_bytes(l);
            let cl = le_bytes(lb.len() as nat, 8);
            lemma_le_bytes_len(lb.len() as nat, 8);
            lemma_le_round(lb.len() as nat, 8);
            assert(b2 =~= seq![1u8] + (cl + (lb + (ct + rest))));
            assert(b2[0] == 1);
            let b3 = b2.skip(1);
            assert(b3 =~= cl + (lb + (ct + rest)));
            assert(b3.take(8) =~= cl);
            let b4 = b3.skip(8);
            assert(b4 =~= lb + (ct + rest));
            assert(b4.len() >= lb.len());
            assert(b4.take(lb.len() as int) =~= lb);
            crate::lemma_label_round_trip(l);
            let b5 = b4.skip(lb.len() as int);
            assert(b5 =~= ct + rest);
            assert(b5.take(8) =~= ct);
            assert(b5.skip(8) =~= rest);
        },
    }
}

proof fn lemma_dec_samples_of(s: Seq<MouseEvent>, rest: Seq<u8>)
    ensures
        dec_samples(samples_bytes(s) + rest, s.len() as nat) == Ok::<
            (Seq<MouseEvent>, Seq<u8>),
            DecodeError,
        >((s, rest)),
    decreases s.len(),
{
    if s.len() == 0 {
        assert(samples_bytes(s) + rest =~= rest);
        assert(s =~= Seq::<MouseEvent>::empty());
    } else {
        assert(samples_bytes(s) + rest
            =~= sample_bytes(s.first()) + (samples_bytes(s.drop_first()) + rest));
        lemma_dec_sample_of(s.first(), samples_bytes(s.drop_first()) + rest);
        lemma_dec_samples_of(s.drop_first(), rest);
        assert(seq![s.first()] + s.drop_first() =~= s);
    }
}

/// The round-trip law for the compact-binary format.
pub proof fn lemma_round_trip(s: Seq<MouseEvent>)
    requires
        s.len() < 0x1_0000_0000_0000_0000,
    ensures
        decode_spec(encode_spec(s)) == Ok::<Seq<MouseEvent>, DecodeError>(s),
{
    let enc = encode_spec(s);
    lemma_le_bytes_len(s.len() as nat, 8);
    assert(pow256(8) == 0x1_0000_0000_0000_0000) by {
        reveal_with_fuel(pow256, 9);
    }
    lemma_le_round(s.len() as nat, 8);
    assert(enc.take(8) =~= le_bytes(s.len() as nat, 8));
    assert(enc.skip(8) =~= samples_bytes(s) + Seq::<u8>::empty());
    lemma_dec_samples_of(s, Seq::<u8>::empty());
}

} // verus!
