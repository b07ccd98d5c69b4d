use vstd::prelude::*;
use crate::{label_bytes, label_from, label_of_bytes, push_label, ButtonLabel, MouseEvent};
use crate::bytes::{bytes_eq, lemma_split_len, lemma_split_nosep, lemma_split_prefix, no_sep,
    split_bytes, split_on, views_of};
use crate::codec::{decode_matches, DecodeError};
use crate::digits::{all_digits, dec_int, dec_nat, fmt_i32, fmt_u64, is_digit,
    lemma_dec_nat_val, lemma_dec_nat_wf, parse_i32_field, parse_u64_field, read_i32_field,
    read_u64_field};

verus! {

// The delimited-text codec: one header line `x,y,button,time`, then one row
// per sample, fields comma-separated, rows newline-terminated.

pub open spec fn header_bytes() -> Seq<u8> {
    seq![120u8, 44u8, 121u8, 44u8, 98u8, 117u8, 116u8, 116u8, 111u8, 110u8, 44u8, 116u8, 105u8,
        109u8, 101u8]
}

/// The text `None`, written for a sample that carries no click.
pub open spec fn none_bytes() -> Seq<u8> {
    seq![78u8, 111u8, 110u8, 101u8]
}

pub open spec fn button_field(b: Option<ButtonLabel>) -> Seq<u8> {
    match b {
        None => none_bytes(),
        Some(l) => label_bytes(l),
    }
}

pub open spec fn button_of_field(f: Seq<u8>) -> Option<ButtonLabel> {
    if f == none_bytes() {
        None
    } else {
        Some(label_of_bytes(f))
    }
}

/// One row: `x,y,button,time`, all field values written exactly.
pub open spec fn row_bytes(e: MouseEvent) -> Seq<u8> {
    dec_int(e.x as int) + seq![44u8] + dec_int(e.y as int) + seq![44u8] + button_field(e.button)
        + seq![44u8] + dec_nat(e.time_us as nat)
}

pub open spec fn rows_bytes(s: Seq<MouseEvent>) -> Seq<u8>
    decreases s.len(),
{
    if s.len() == 0 {
        Seq::empty()
    } else {
        row_bytes(s.first()) + seq![10u8] + rows_bytes(s.drop_first())
    }
}

/// The whole encoding: header line, then every row, newline-terminated.
pub open spec fn encode_spec(s: Seq<MouseEvent>) -> Seq<u8> {
    header_bytes() + seq![10u8] + rows_bytes(s)
}

/// One row read back: exactly four fields, numeric `x`, `y` and `time`;
/// the button field takes any text (`None` for no click).
pub open spec fn parse_row(l: Seq<u8>) -> Option<MouseEvent> {
    let fs = split_on(l, 44);
    if fs.len() != 4 {
        None
    } else {
        match (parse_i32_field(fs[0]), parse_i32_field(fs[1]), parse_u64_field(fs[3])) {
            (Some(x), Some(y), Some(t)) => Some(
                MouseEvent { x, y, button: button_of_field(fs[2]), time_us: t },
            ),
            _ => None,
        }
    }
}

/// Rows in order; the first malformed row is reported by its 1-based index.
pub open spec fn parse_rows(ls: Seq<Seq<u8>>, idx: int) -> Result<Seq<MouseEvent>, DecodeError>
    decreases ls.len(),
{
    if ls.len() == 0 {
        Ok(Seq::empty())
    } else {
        match parse_row(ls.first()) {
            None => Err(DecodeError::BadRow { row: idx as usize }),
            Some(e) => match parse_rows(ls.drop_first(), idx + 1) {
                Ok(r) => Ok(seq![e] + r),
                Err(er) => Err(er),
            },
        }
    }
}

/// The whole decoding: lines are newline separated (one trailing newline
/// tolerated), the first line must be the exact header, the rest are rows.
pub open spec fn decode_spec(b: Seq<u8>) -> Result<Seq<MouseEvent>, DecodeError> {
    let parts = split_on(b, 10);
    let lines = if parts.last() == Seq::<u8>::empty() {
        parts.drop_last()
    } else {
        parts
    };
    if lines.len() == 0 || lines[0] != header_bytes() {
        Err(DecodeError::MissingHeader)
    } else {
        parse_rows(lines.drop_first(), 1)
    }
}

proof fn lemma_rows_bytes_snoc(s: Seq<MouseEvent>, e: MouseEvent)
    ensures
        rows_bytes(s.push(e)) == rows_bytes(s) + row_bytes(e) + seq![10u8],
    decreases s.len(),
{
    if s.len() == 0 {
        assert(s.push(e).first() == e);
        assert(s.push(e).drop_first() =~= Seq::<MouseEvent>::empty());
        assert(rows_bytes(s.push(e).drop_first()) =~= Seq::<u8>::empty());
        assert(rows_bytes(s.push(e)) =~= rows_bytes(s) + row_bytes(e) + seq![10u8]);
    } else {
        assert(s.push(e).first() == s.first());
        assert(s.push(e).drop_first() =~= s.drop_first().push(e));
        lemma_rows_bytes_snoc(s.drop_first(), e);
        assert(rows_bytes(s.push(e)) =~= rows_bytes(s) + row_bytes(e) + seq![10u8]);
    }
}

/// The rows of a timeline, one segment per sample.
pub open spec fn row_seqs(s: Seq<MouseEvent>) -> Seq<Seq<u8>> {
    s.map_values(|e: MouseEvent| row_bytes(e))
}

proof fn lemma_nosep_concat(a: Seq<u8>, b: Seq<u8>, sep: u8)
    requires
        no_sep(a, sep),
        no_sep(b, sep),
    ensures
        no_sep(a + b, sep),
{
    assert forall|i: int| 0 <= i < (a + b).len() implies #[trigger] (a + b)[i] != sep by {
        if i < a.len() {
            assert((a + b)[i] == a[i]);
        } else {
            assert((a + b)[i] == b[i - a.len()]);
        }
    }
}

proof fn lemma_digits_nosep(n: nat, sep: u8)
    requires
        sep < 48 || sep > 57,
    ensures
        no_sep(dec_nat(n), sep),
{
    lemma_dec_nat_wf(n);
    assert forall|i: int| 0 <= i < dec_nat(n).len() implies #[trigger] dec_nat(n)[i] != sep by {
        assert(is_digit(dec_nat(n)[i]));
    }
}

proof fn lemma_dec_int_nosep(v: int, sep: u8)
    requires
        sep < 45 || sep > 57,
    ensures
        no_sep(dec_int(v), sep),
{
    if v < 0 {
        lemma_digits_nosep((-v) as nat, sep);
        lemma_nosep_concat(seq![45u8], dec_nat((-v) as nat), sep);
    } else {
        lemma_digits_nosep(v as nat, sep);
    }
}

proof fn lemma_button_field_nosep(b: Option<ButtonLabel>, sep: u8)
    requires
        sep < 76,
    ensures
        no_sep(button_field(b), sep),
{
    let f = button_field(b);
    assert forall|i: int| 0 <= i < f.len() implies #[trigger] f[i] != sep by {
        assert(f[i] >= 76);
    }
}

proof fn lemma_row_nosep(e: MouseEvent)
    ensures
        no_sep(row_bytes(e), 10),
{
    lemma_dec_int_nosep(e.x as int, 10);
    lemma_dec_int_nosep(e.y as int, 10);
    lemma_button_field_nosep(e.button, 10);
    lemma_digits_nosep(e.time_us as nat, 10);
    assert(no_sep(seq![44u8], 10));
    lemma_nosep_concat(dec_int(e.x as int), seq![44u8], 10);
    lemma_nosep_concat(dec_int(e.x as int) + seq![44u8], dec_int(e.y as int), 10);
    lemma_nosep_concat(dec_int(e.x as int) + seq![44u8] + dec_int(e.y as int), seq![44u8], 10);
    lemma_nosep_concat(
        dec_int(e.x as int) + seq![44u8] + dec_int(e.y as int) + seq![44u8],
        button_field(e.button),
        10,
    );
    lemma_nosep_concat(
        dec_int(e.x as int) + seq![44u8] + dec_int(e.y as int) + seq![44u8]
            + button_field(e.button),
        seq![44u8],
        10,
    );
    lemma_nosep_concat(
        dec_int(e.x as int) + seq![44u8] + dec_int(e.y as int) + seq![44u8]
            + button_field(e.button) + seq![44u8],
        dec_nat(e.time_us as nat),
        10,
    );
}

/// The comma split of a row is exactly its four fields.
proof fn lemma_fields_of_row(e: MouseEvent)
    ensures
        split_on(row_bytes(e), 44) == seq![
            dec_int(e.x as int),
            dec_int(e.y as int),
            button_field(e.button),
            dec_nat(e.time_us as nat),
        ],
{
    let f0 = dec_int(e.x as int);
    let f1 = dec_int(e.y as int);
    let f2 = button_field(e.button);
    let f3 = dec_nat(e.time_us as nat);
    lemma_dec_int_nosep(e.x as int, 44);
    lemma_dec_int_nosep(e.y as int, 44);
    lemma_button_field_nosep(e.button, 44);
    lemma_digits_nosep(e.time_us as nat, 44);
    assert(row_bytes(e) =~= f0 + seq![44u8] + (f1 + seq![44u8] + (f2 + seq![44u8] + f3)));
    lemma_split_prefix(f0, 44, f1 + seq![44u8] + (f2 + seq![44u8] + f3));
    lemma_split_prefix(f1, 44, f2 + seq![44u8] + f3);
    lemma_split_prefix(f2, 44, f3);
    lemma_split_nosep(f3, 44);
    assert(split_on(row_bytes(e), 44) =~= seq![f0, f1, f2, f3]);
}

proof fn lemma_parse_dec_int(v: int)
    requires
        -0x8000_0000 <= v <= 0x7fff_ffff,
    ensures
        parse_i32_field(dec_int(v)) == Some(v as i32),
{
    if v < 0 {
        let d = dec_nat((-v) as nat);
        lemma_dec_nat_wf((-v) as nat);
        lemma_dec_nat_val((-v) as nat);
        assert(dec_int(v)[0] == 45);
        assert(dec_int(v).drop_first() =~= d);
    } else {
        lemma_dec_nat_wf(v as nat);
        lemma_dec_nat_val(v as nat);
        assert(is_digit(dec_int(v)[0]));
    }
}

/// Decoding a printed row gives back the sample printed.
proof fn lemma_parse_row_of_row(e: MouseEvent)
    ensures
        parse_row(row_bytes(e)) == Some(e),
{
    lemma_fields_of_row(e);
    let fs = split_on(row_bytes(e), 44);
    assert(fs[0] == dec_int(e.x as int));
    assert(fs[1] == dec_int(e.y as int));
    assert(fs[2] == button_field(e.button));
    assert(fs[3] == dec_nat(e.time_us as nat));
    lemma_parse_dec_int(e.x as int);
    lemma_parse_dec_int(e.y as int);
    lemma_dec_nat_wf(e.time_us as nat);
    lemma_dec_nat_val(e.time_us as nat);
    assert(parse_u64_field(fs[3]) == Some(e.time_us));
    match e.button {
        None => {
        },
        Some(l) => {
            assert(label_bytes(l) != none_bytes()) by {
                match l {
                    ButtonLabel::Left => {
                        assert(label_bytes(l)[0] == 76 && none_bytes()[0] == 78);
                    },
                    ButtonLabel::Right => {
                        assert(label_bytes(l).len() == 5 && none_bytes().len() == 4);
                    },
                    ButtonLabel::Middle => {
                        assert(label_bytes(l).len() == 6 && none_bytes().len() == 4);
                    },
                    ButtonLabel::Other => {
                        assert(label_bytes(l).len() == 5 && none_bytes().len() == 4);
                    },
                }
            }
            crate::lemma_label_round_trip(l);
        },
    }
    assert(button_of_field(fs[2]) == e.button);
}

proof fn lemma_parse_rows_of(s: Seq<MouseEvent>, idx: int)
    ensures
        parse_rows(row_seqs(s), idx) == Ok::<Seq<MouseEvent>, DecodeError>(s),
    decreases s.len(),
{
    if s.len() == 0 {
        assert(row_seqs(s) =~= Seq::<Seq<u8>>::empty());
        assert(s =~= Seq::<MouseEvent>::empty());
    } else {
        assert(row_seqs(s).len() == s.len());
        assert(row_seqs(s).first() == row_bytes(s.first()));
        lemma_parse_row_of_row(s.first());
        assert(row_seqs(s).drop_first() =~= row_seqs(s.drop_first()));
        lemma_parse_rows_of(s.drop_first(), idx + 1);
        assert(seq![s.first()] + s.drop_first() =~= s);
    }
}

proof fn lemma_split_rows(s: Seq<MouseEvent>)
    ensures
        split_on(rows_bytes(s), 10) == row_seqs(s) + seq![Seq::<u8>::empty()],
    decreases s.len(),
{
    if s.len() == 0 {
        assert(rows_bytes(s).len() == 0);
        assert(rows_bytes(s) =~= Seq::<u8>::empty());
        assert(row_seqs(s) =~= Seq::<Seq<u8>>::empty());
        assert(split_on(rows_bytes(s), 10) =~= row_seqs(s) + seq![Seq::<u8>::empty()]);
    } else {
        lemma_row_nosep(s.first());
        lemma_split_prefix(row_bytes(s.first()), 10, rows_bytes(s.drop_first()));
        lemma_split_rows(s.drop_first());
        assert(row_seqs(s).drop_first() =~= row_seqs(s.drop_first()));
        assert(split_on(rows_bytes(s), 10)
            == seq![row_bytes(s.first())] + (row_seqs(s.drop_first()) + seq![Seq::<u8>::empty()]));
        assert(seq![row_bytes(s.first())] + (row_seqs(s.drop_first()) + seq![Seq::<u8>::empty()])
            =~= row_seqs(s) + seq![Seq::<u8>::empty()]);
    }
}

/// The round-trip law for the delimited format: decoding an encoded
/// timeline gives back exactly the timeline encoded, empty ones included.
pub proof fn lemma_round_trip(s: Seq<MouseEvent>)
    ensures
        decode_spec(encode_spec(s)) == Ok::<Seq<MouseEvent>, DecodeError>(s),
{
    let enc = encode_spec(s);
    assert(no_sep(header_bytes(), 10)) by {
        assert forall|i: int| 0 <= i < header_bytes().len() implies
            #[trigger] header_bytes()[i] != 10
        by {
            assert(header_bytes()[i] >= 44);
        }
    }
    lemma_split_prefix(header_bytes(), 10, rows_bytes(s));
    lemma_split_rows(s);
    let parts = split_on(enc, 10);
    assert(parts == seq![header_bytes()] + (row_seqs(s) + seq![Seq::<u8>::empty()]));
    assert(parts.len() == s.len() + 2);
    assert(parts.last() == Seq::<u8>::empty());
    let lines = parts.drop_last();
    assert(lines =~= seq![header_bytes()] + row_seqs(s));
    assert(lines[0] == header_bytes());
    assert(lines.drop_first() =~= row_seqs(s));
    lemma_parse_rows_of(s, 1);
}

/// Writes a timeline as delimited text.
#[verifier::rlimit(50)]
pub fn encode(events: &Vec<MouseEvent>) -> (r: Vec<u8>)
    ensures
        r@ == encode_spec(events@),
{
    let mut out: Vec<u8> = Vec::new();
    out.push(120);
    out.push(44);
    out.push(121);
    out.push(44);
    out.push(98);
    out.push(117);
    out.push(116);
    out.push(116);
    out.push(111);
    out.push(110);
    out.push(44);
    out.push(116);
    out.push(105);
    out.push(109);
    out.push(101);
    out.push(10);
    proof {
        assert(out@ =~= header_bytes() + seq![10u8]);
        assert(rows_bytes(events@.take(0)) =~= Seq::<u8>::empty());
        assert(out@ =~= header_bytes() + seq![10u8] + rows_bytes(events@.take(0)));
    }
    let n = events.len();
    let mut i: usize = 0;
    while i < n
        invariant
            0 <= i <= n,
            n == events@.len(),
            out@ == header_bytes() + seq![10u8] + rows_bytes(events@.take(i as int)),
        decreases n - i,
    {
        let e = events[i];
        let ghost before = out@;
        let mut fx = fmt_i32(e.x);
        out.append(&mut fx);
        out.push(44);
        let mut fy = fmt_i32(e.y);
        out.append(&mut fy);
        out.push(44);
        match e.button {
            None => {
                out.push(78);
                out.push(111);
                out.push(110);
                out.push(101);
            },
            Some(l) => {
                push_label(&mut out, l);
            },
        }
        out.push(44);
        let mut ft = fmt_u64(e.time_us);
        out.append(&mut ft);
        out.push(10);
        proof {
            assert(out@ =~= before + row_bytes(e) + seq![10u8]);
            lemma_rows_bytes_snoc(events@.take(i as int), e);
            assert(events@.take(i + 1) =~= events@.take(i as int).push(e));
            assert(out@ =~= header_bytes() + seq![10u8] + rows_bytes(events@.take(i + 1)));
        }
        i = i + 1;
    }
    proof {
        assert(events@.take(n as int) =~= events@);
    }
    out
}

/// Reads delimited text back into a timeline; agrees with `decode_spec`
/// input for input, success and error alike.
pub fn decode(b: &[u8]) -> (r: Result<Vec<MouseEvent>, DecodeError>)
    ensures
        decode_matches(r, decode_spec(b@)),
{
    let parts = split_bytes(b, 10);
    proof {
        lemma_split_len(b@, 10);
    }
    let nparts = parts.len();
    let nlines = if parts[nparts - 1].len() == 0 {
        nparts - 1
    } else {
        nparts
    };
    let ghost lines = if split_on(b@, 10).last() == Seq::<u8>::empty() {
        split_on(b@, 10).drop_last()
    } else {
        split_on(b@, 10)
    };
    proof {
        assert(views_of(parts@).len() == nparts);
        assert(views_of(parts@)[nparts - 1] == parts@[nparts - 1]@);
        if parts@[nparts - 1]@.len() == 0 {
            assert(views_of(parts@).last() =~= Seq::<u8>::empty());
            assert(lines =~= views_of(parts@).drop_last());
        } else {
            assert(lines =~= views_of(parts@));
        }
        assert(lines.len() == nlines);
    }
    if nlines == 0 {
        return Err(DecodeError::MissingHeader);
    }
    let mut hdr: Vec<u8> = Vec::new();
    hdr.push(120);
    hdr.push(44);
    hdr.push(121);
    hdr.push(44);
    hdr.push(98);
    hdr.push(117);
    hdr.push(116);
    hdr.push(116);
    hdr.push(111);
    hdr.push(110);
    hdr.push(44);
    hdr.push(116);
    hdr.push(105);
    hdr.push(109);
    hdr.push(101);
    proof {
        assert(hdr@ =~= header_bytes());
    }
    if !bytes_eq(parts[0].as_slice(), hdr.as_slice()) {
        proof {
            assert(lines[0] == parts@[0]@);
        }
        return Err(DecodeError::MissingHeader);
    }
    proof {
        assert(lines[0] == parts@[0]@);
    }
    let ghost rows = lines.drop_first();
    let mut out: Vec<MouseEvent> = Vec::new();
    let mut li: usize = 1;
    proof {
        assert(lines.len() > 0);
        assert(lines[0] == header_bytes());
        assert(decode_spec(b@) == parse_rows(rows, 1));
        assert(rows.skip(0) =~= rows);
        if let Ok(r) = parse_rows(rows, 1) {
            assert(out@ + r =~= r);
        }
    }
    while li < nlines
        invariant
            1 <= li <= nlines,
            nlines <= parts@.len(),
            rows == lines.drop_first(),
            decode_spec(b@) == parse_rows(rows, 1),
            rows.len() == nlines - 1,
            forall|k: int| 0 <= k < rows.len() ==> #[trigger] rows[k] == views_of(parts@)[k + 1],
            parse_rows(rows, 1) == match parse_rows(rows.skip(li - 1), li as int) {
                Ok(r) => Ok::<Seq<MouseEvent>, DecodeError>(out@ + r),
                Err(e) => Err::<Seq<MouseEvent>, DecodeError>(e),
            },
        decreases nlines - li,
    {
        let ghost i = li - 1;
        let row: &Vec<u8> = &parts[li];
        proof {
            assert(rows[i] == row@);
            assert(rows.skip(i).first() == rows[i]);
        }
        let fields = split_bytes(row.as_slice(), 44);
        proof {
            assert(views_of(fields@) == split_on(rows[i], 44));
        }
        if fields.len() != 4 {
            proof {
                assert(parse_row(rows.skip(i).first()) is None);
                assert(parse_rows(rows.skip(i), li as int) == Err::<Seq<MouseEvent>, DecodeError>(
                    DecodeError::BadRow { row: li },
                ));
            }
            return Err(DecodeError::BadRow { row: li });
        }
        proof {
            assert(views_of(fields@)[0] == fields@[0]@);
            assert(views_of(fields@)[1] == fields@[1]@);
            assert(views_of(fields@)[2] == fields@[2]@);
            assert(views_of(fields@)[3] == fields@[3]@);
        }
        let x = read_i32_field(fields[0].as_slice());
        let y = read_i32_field(fields[1].as_slice());
        let t = read_u64_field(fields[3].as_slice());
        let (x, y, t) = match (x, y, t) {
            (Some(x), Some(y), Some(t)) => (x, y, t),
            _ => {
                proof {
                    assert(parse_row(rows.skip(i).first()) is None);
                    assert(parse_rows(rows.skip(i), li as int)
                        == Err::<Seq<MouseEvent>, DecodeError>(DecodeError::BadRow { row: li }));
                }
                return Err(DecodeError::BadRow { row: li });
            },
        };
        let mut nv: Vec<u8> = Vec::new();
        nv.push(78);
        nv.push(111);
        nv.push(110);
        nv.push(101);
        proof {
            assert(nv@ =~= none_bytes());
        }
        let button = if bytes_eq(fields[2].as_slice(), nv.as_slice()) {
            None
        } else {
            Some(label_from(fields[2].as_slice()))
        };
        let e = MouseEvent { x, y, button, time_us: t };
        proof {
            assert(parse_row(rows.skip(i).first()) == Some(e));
        }
        proof {
            assert(rows.skip(i).drop_first() =~= rows.skip(i + 1));
            assert(parse_rows(rows.skip(i), li as int) == (
                match parse_rows(rows.skip(i + 1), li as int + 1) {
                    Ok(r) => Ok::<Seq<MouseEvent>, DecodeError>(seq![e] + r),
                    Err(er) => Err::<Seq<MouseEvent>, DecodeError>(er),
                }
            ));
            if let Ok(r) = parse_rows(rows.skip(i + 1), li as int + 1) {
                assert(out@ + (seq![e] + r) =~= out@.push(e) + r);
            }
        }
        out.push(e);
        li = li + 1;
    }
    proof {
        assert(rows.skip(nlines - 1) =~= Seq::<Seq<u8>>::empty());
        assert(parse_rows(rows.skip(nlines - 1), nlines as int)
            == Ok::<Seq<MouseEvent>, DecodeError>(Seq::<MouseEvent>::empty()));
        assert(out@ + Seq::<MouseEvent>::empty() =~= out@);
    }
    Ok(out)
}

} // verus!
