use vstd::prelude::*;

use crate::csvfmt::{
    enc_field, enc_row, enc_rows, esc, header, header_row, is_special, needs_quote,
    snapshot_bytes, views,
};
use crate::digits::{all_digits, field_to_u64, is_digit, lemma_parse_u64_dec, parse_u64, u64_dec};
use crate::quote::{CSVQuote, QuoteView};

verus! {

// Reading a snapshot back. The spec functions here pin down exactly which
// byte strings parse and to what; on encoder output the parser is the
// encoder's inverse (the round-trip lemma below). Each spec function
// consumes from the front and reports how many bytes it took.

/// Length of the leading run free of commas and line feeds.
pub open spec fn scan_plain(s: Seq<u8>) -> int
    decreases s.len(),
{
    if s.len() == 0 {
        0
    } else if s.first() == 44 || s.first() == 10 {
        0
    } else {
        1 + scan_plain(s.drop_first())
    }
}

/// Reads a quoted field body after its opening quote: a doubled quote is a
/// literal quote, a lone quote closes the field. Returns the field and the
/// bytes consumed, closing quote included; `None` when unterminated.
pub open spec fn parse_quoted(s: Seq<u8>) -> Option<(Seq<u8>, int)>
    decreases s.len(),
{
    if s.len() == 0 {
        None
    } else if s.first() == 34 {
        if s.len() >= 2 && s[1] == 34 {
            match parse_quoted(s.skip(2)) {
                None => None,
                Some((f, n)) => Some((seq![34u8] + f, n + 2)),
            }
        } else {
            Some((Seq::empty(), 1))
        }
    } else {
        match parse_quoted(s.drop_first()) {
            None => None,
            Some((f, n)) => Some((seq![s.first()] + f, n + 1)),
        }
    }
}

/// Reads one field: quoted when it opens with a quote, bare otherwise.
pub open spec fn parse_field(s: Seq<u8>) -> Option<(Seq<u8>, int)> {
    if s.len() > 0 && s.first() == 34 {
        match parse_quoted(s.drop_first()) {
            None => None,
            Some((f, n)) => Some((f, n + 1)),
        }
    } else {
        Some((s.take(scan_plain(s)), scan_plain(s)))
    }
}

/// Reads `k` comma-separated fields closed by a line feed.
pub open spec fn parse_fields(s: Seq<u8>, k: nat) -> Option<(Seq<Seq<u8>>, int)>
    decreases k,
{
    if k == 0 {
        None
    } else {
        match parse_field(s) {
            None => None,
            Some((f, n)) => {
                let rest = s.skip(n);
                if k == 1 {
                    if rest.len() > 0 && rest.first() == 10 {
                        Some((seq![f], n + 1))
                    } else {
                        None
                    }
                } else {
                    if rest.len() > 0 && rest.first() == 44 {
                        match parse_fields(rest.skip(1), (k - 1) as nat) {
                            None => None,
                            Some((fs, m)) => Some((seq![f] + fs, n + 1 + m)),
                        }
                    } else {
                        None
                    }
                }
            }
        }
    }
}

/// The eight columns of one record, in file order.
pub open spec fn row_fields(q: QuoteView) -> Seq<Seq<u8>> {
    seq![
        q.name,
        u64_dec(q.timestamp as nat),
        q.open,
        q.close,
        q.adjclose,
        q.high,
        q.low,
        u64_dec(q.volume as nat),
    ]
}

/// A field list as the encoder writes it: comma separated, closed by a
/// line feed.
pub open spec fn enc_fields(fs: Seq<Seq<u8>>) -> Seq<u8>
    decreases fs.len(),
{
    if fs.len() == 0 {
        Seq::empty()
    } else if fs.len() == 1 {
        enc_field(fs.first()) + seq![10u8]
    } else {
        enc_field(fs.first()) + seq![44u8] + enc_fields(fs.drop_first())
    }
}

/// Turns eight parsed fields back into a record; the two integer columns
/// must be in-range decimal text.
pub open spec fn row_of_fields(fs: Seq<Seq<u8>>) -> Option<QuoteView> {
    if fs.len() == 8 {
        match parse_u64(fs[1]) {
            None => None,
            Some(ts) => match parse_u64(fs[7]) {
                None => None,
                Some(vol) => Some(
                    QuoteView {
                        name: fs[0],
                        timestamp: ts,
                        open: fs[2],
                        close: fs[3],
                        adjclose: fs[4],
                        high: fs[5],
                        low: fs[6],
                        volume: vol,
                    },
                ),
            },
        }
    } else {
        None
    }
}

/// Reads records until the input is exhausted.
pub open spec fn parse_rows(s: Seq<u8>) -> Option<Seq<QuoteView>>
    decreases s.len(),
{
    if s.len() == 0 {
        Some(Seq::empty())
    } else {
        match parse_fields(s, 8) {
            None => None,
            Some((fs, n)) => match row_of_fields(fs) {
                None => None,
                Some(q) => if 0 < n <= s.len() {
                    match parse_rows(s.skip(n)) {
                        None => None,
                        Some(qs) => Some(seq![q] + qs),
                    }
                } else {
                    None
                },
            },
        }
    }
}

/// A snapshot is the exact header, then rows to the end of the input.
pub open spec fn parse_snapshot_bytes(s: Seq<u8>) -> Option<Seq<QuoteView>> {
    if s.len() >= header().len() && s.take(header().len() as int) == header() {
        parse_rows(s.skip(header().len() as int))
    } else {
        None
    }
}

pub proof fn lemma_scan_plain_concat(f: Seq<u8>, rest: Seq<u8>)
    requires
        forall|i: int| 0 <= i < f.len() ==> !(#[trigger] f[i] == 44 || f[i] == 10),
        rest.len() == 0 || rest[0] == 44 || rest[0] == 10,
    ensures
        scan_plain(f + rest) == f.len(),
    decreases f.len(),
{
    let s = f + rest;
    if f.len() == 0 {
        assert(s =~= rest);
        if rest.len() > 0 {
            assert(s.first() == rest[0]);
        }
    } else {
        assert(s.first() == f[0]);
        assert(s.drop_first() =~= f.drop_first() + rest);
        lemma_scan_plain_concat(f.drop_first(), rest);
    }
}

pub proof fn lemma_parse_quoted_esc(f: Seq<u8>, rest: Seq<u8>)
    requires
        rest.len() == 0 || rest[0] == 44 || rest[0] == 10,
    ensures
        parse_quoted(esc(f) + seq![34u8] + rest) == Some((f, esc(f).len() as int + 1)),
    decreases f.len(),
{
    let s = esc(f) + seq![34u8] + rest;
    if f.len() == 0 {
        assert(esc(f) == Seq::<u8>::empty());
        assert(s =~= seq![34u8] + rest);
        assert(s.first() == 34);
        if s.len() >= 2 {
            assert(s[1] == rest[0]);
            assert(s[1] != 34);
        }
        assert(parse_quoted(s) == Some((Seq::<u8>::empty(), 1int)));
        assert(f =~= Seq::<u8>::empty());
    } else if f.first() == 34 {
        assert(esc(f) == seq![34u8, 34u8] + esc(f.drop_first()));
        assert(s.first() == 34);
        assert(s.len() >= 2);
        assert(s[1] == 34);
        assert(s.skip(2) =~= esc(f.drop_first()) + seq![34u8] + rest);
        lemma_parse_quoted_esc(f.drop_first(), rest);
        let inner = parse_quoted(s.skip(2));
        assert(inner == Some((f.drop_first(), esc(f.drop_first()).len() as int + 1)));
        assert(seq![34u8] + f.drop_first() =~= f);
        assert(esc(f).len() == esc(f.drop_first()).len() + 2);
    } else {
        assert(esc(f) == seq![f.first()] + esc(f.drop_first()));
        assert(s.first() == f.first());
        assert(s.first() != 34);
        assert(s.drop_first() =~= esc(f.drop_first()) + seq![34u8] + rest);
        lemma_parse_quoted_esc(f.drop_first(), rest);
        assert(parse_quoted(s.drop_first()) == Some(
            (f.drop_first(), esc(f.drop_first()).len() as int + 1),
        ));
        assert(seq![s.first()] + f.drop_first() =~= f);
        assert(esc(f).len() == esc(f.drop_first()).len() as int + 1);
    }
}

pub proof fn lemma_parse_field_enc(f: Seq<u8>, rest: Seq<u8>)
    requires
        rest.len() == 0 || rest[0] == 44 || rest[0] == 10,
    ensures
        parse_field(enc_field(f) + rest) == Some((f, enc_field(f).len() as int)),
{
    let s = enc_field(f) + rest;
    if needs_quote(f) {
        assert(enc_field(f) == seq![34u8] + esc(f) + seq![34u8]);
        assert(s.len() > 0);
        assert(s.first() == 34);
        assert(s.drop_first() =~= esc(f) + seq![34u8] + rest);
        lemma_parse_quoted_esc(f, rest);
        assert(parse_quoted(s.drop_first()) == Some((f, esc(f).len() as int + 1)));
        assert(enc_field(f).len() == esc(f).len() + 2);
    } else {
        assert(enc_field(f) == f);
        assert(forall|i: int|
            0 <= i < f.len() ==> !(#[trigger] f[i] == 44 || f[i] == 10)) by {
            assert(forall|i: int| 0 <= i < f.len() ==> !is_special(f[i])) by {
                assert(forall|i: int|
                    0 <= i < f.len() && is_special(f[i]) ==> needs_quote(f));
            }
        }
        if f.len() > 0 {
            assert(!is_special(f[0]));
            assert(s.first() == f[0]);
            assert(s.first() != 34);
        }
        lemma_scan_plain_concat(f, rest);
        assert(scan_plain(s) == f.len());
        assert(s.take(f.len() as int) =~= f);
    }
}

/// Decimal text never needs quoting: every digit byte is harmless.
pub proof fn lemma_digits_field_plain(s: Seq<u8>)
    requires
        all_digits(s),
    ensures
        !needs_quote(s),
        enc_field(s) == s,
{
    if needs_quote(s) {
        let i = choose|i: int| 0 <= i < s.len() && is_special(s[i]);
        assert(is_digit(s[i]));
        assert(false);
    }
}

pub proof fn lemma_parse_fields_enc(fs: Seq<Seq<u8>>, rest: Seq<u8>)
    requires
        fs.len() >= 1,
    ensures
        parse_fields(enc_fields(fs) + rest, fs.len() as nat) == Some(
            (fs, enc_fields(fs).len() as int),
        ),
    decreases fs.len(),
{
    let s = enc_fields(fs) + rest;
    let f0 = fs.first();
    if fs.len() == 1 {
        assert(enc_fields(fs) == enc_field(f0) + seq![10u8]);
        let rest1 = seq![10u8] + rest;
        assert(s =~= enc_field(f0) + rest1);
        assert(rest1[0] == 10);
        lemma_parse_field_enc(f0, rest1);
        let n = enc_field(f0).len() as int;
        assert(parse_field(s) == Some((f0, n)));
        assert(s.skip(n) =~= rest1);
        assert(parse_fields(s, fs.len() as nat) == Some((seq![f0], n + 1)));
        assert(seq![f0] =~= fs);
        assert(enc_fields(fs).len() == n + 1);
    } else {
        assert(enc_fields(fs) == enc_field(f0) + seq![44u8] + enc_fields(fs.drop_first()));
        let rest1 = seq![44u8] + enc_fields(fs.drop_first()) + rest;
        assert(s =~= enc_field(f0) + rest1);
        assert(rest1[0] == 44);
        lemma_parse_field_enc(f0, rest1);
        let n = enc_field(f0).len() as int;
        assert(parse_field(s) == Some((f0, n)));
        assert(s.skip(n) =~= rest1);
        assert(rest1.skip(1) =~= enc_fields(fs.drop_first()) + rest);
        lemma_parse_fields_enc(fs.drop_first(), rest);
        let m = enc_fields(fs.drop_first()).len() as int;
        assert(parse_fields(rest1.skip(1), (fs.len() - 1) as nat) == Some((fs.drop_first(), m)));
        assert(seq![f0] + fs.drop_first() =~= fs);
        assert(parse_fields(s, fs.len() as nat) == Some((seq![f0] + fs.drop_first(), n + 1 + m)));
        assert(enc_fields(fs).len() == n + 1 + m);
    }
}

/// The row encoder writes exactly the eight columns of `row_fields`.
#[verifier::rlimit(100)]
pub proof fn lemma_enc_row_eq(q: QuoteView)
    ensures
        enc_row(q) == enc_fields(row_fields(q)),
{
    let fs = row_fields(q);
    crate::digits::lemma_u64_dec_digits(q.timestamp as nat);
    crate::digits::lemma_u64_dec_digits(q.volume as nat);
    lemma_digits_field_plain(u64_dec(q.timestamp as nat));
    lemma_digits_field_plain(u64_dec(q.volume as nat));
    assert(fs.len() == 8);
    let g1 = fs.drop_first();
    let g2 = g1.drop_first();
    let g3 = g2.drop_first();
    let g4 = g3.drop_first();
    let g5 = g4.drop_first();
    let g6 = g5.drop_first();
    let g7 = g6.drop_first();
    assert(g1.len() == 7 && g1.first() == fs[1]);
    assert(g2.len() == 6 && g2.first() == fs[2]);
    assert(g3.len() == 5 && g3.first() == fs[3]);
    assert(g4.len() == 4 && g4.first() == fs[4]);
    assert(g5.len() == 3 && g5.first() == fs[5]);
    assert(g6.len() == 2 && g6.first() == fs[6]);
    assert(g7.len() == 1 && g7.first() == fs[7]);
    assert(enc_field(fs[1]) == u64_dec(q.timestamp as nat));
    assert(enc_field(fs[7]) == u64_dec(q.volume as nat));
    let c = seq![44u8];
    let n7 = u64_dec(q.volume as nat) + seq![10u8];
    let n6 = enc_field(q.low) + c + n7;
    let n5 = enc_field(q.high) + c + n6;
    let n4 = enc_field(q.adjclose) + c + n5;
    let n3 = enc_field(q.close) + c + n4;
    let n2 = enc_field(q.open) + c + n3;
    let n1 = u64_dec(q.timestamp as nat) + c + n2;
    let n0 = enc_field(q.name) + c + n1;
    assert(enc_fields(g7) == n7);
    assert(enc_fields(g6) == n6);
    assert(enc_fields(g5) == n5);
    assert(enc_fields(g4) == n4);
    assert(enc_fields(g3) == n3);
    assert(enc_fields(g2) == n2);
    assert(enc_fields(g1) == n1);
    assert(enc_fields(fs) == n0);
    // Reassociate the flat row, one column at a time, from the right.
    let p1 = enc_field(q.name) + c;
    let p2 = p1 + u64_dec(q.timestamp as nat) + c;
    let p3 = p2 + enc_field(q.open) + c;
    let p4 = p3 + enc_field(q.close) + c;
    let p5 = p4 + enc_field(q.adjclose) + c;
    let p6 = p5 + enc_field(q.high) + c;
    let p7 = p6 + enc_field(q.low) + c;
    assert(enc_row(q) == p7 + u64_dec(q.volume as nat) + seq![10u8]);
    assert(p7 + u64_dec(q.volume as nat) + seq![10u8] =~= p7 + n7);
    assert(p7 + n7 =~= p6 + n6);
    assert(p6 + n6 =~= p5 + n5);
    assert(p5 + n5 =~= p4 + n4);
    assert(p4 + n4 =~= p3 + n3);
    assert(p3 + n3 =~= p2 + n2);
    assert(p2 + n2 =~= p1 + n1);
    assert(p1 + n1 == n0);
}

pub proof fn lemma_row_of_fields_inv(q: QuoteView)
    ensures
        row_of_fields(row_fields(q)) == Some(q),
{
    let fs = row_fields(q);
    lemma_parse_u64_dec(q.timestamp);
    lemma_parse_u64_dec(q.volume);
    assert(fs[1] == u64_dec(q.timestamp as nat));
    assert(fs[7] == u64_dec(q.volume as nat));
    assert(parse_u64(fs[1]) == Some(q.timestamp));
    assert(parse_u64(fs[7]) == Some(q.volume));
    assert(row_of_fields(fs) == Some(
        QuoteView {
            name: fs[0],
            timestamp: q.timestamp,
            open: fs[2],
            close: fs[3],
            adjclose: fs[4],
            high: fs[5],
            low: fs[6],
            volume: q.volume,
        },
    ));
    assert((QuoteView {
        name: fs[0],
        timestamp: q.timestamp,
        open: fs[2],
        close: fs[3],
        adjclose: fs[4],
        high: fs[5],
        low: fs[6],
        volume: q.volume,
    }) =~= q);
}

#[verifier::rlimit(100)]
pub proof fn lemma_parse_rows_enc(b: Seq<QuoteView>)
    ensures
        parse_rows(enc_rows(b)) == Some(b),
    decreases b.len(),
{
    if b.len() == 0 {
        assert(enc_rows(b) == Seq::<u8>::empty());
        assert(b =~= Seq::<QuoteView>::empty());
    } else {
        let q = b.first();
        let s = enc_rows(b);
        assert(s == enc_row(q) + enc_rows(b.drop_first()));
        lemma_enc_row_eq(q);
        lemma_parse_fields_enc(row_fields(q), enc_rows(b.drop_first()));
        let n = enc_fields(row_fields(q)).len() as int;
        assert(row_fields(q).len() == 8);
        assert(s == enc_fields(row_fields(q)) + enc_rows(b.drop_first()));
        assert(parse_fields(s, 8nat) == Some((row_fields(q), n)));
        lemma_row_of_fields_inv(q);
        assert(enc_row(q).len() >= 1);
        assert(s.len() == n + enc_rows(b.drop_first()).len());
        assert(0 < n <= s.len());
        assert(s.skip(n) =~= enc_rows(b.drop_first()));
        lemma_parse_rows_enc(b.drop_first());
        assert(parse_rows(s) == Some(seq![q] + b.drop_first()));
        assert(seq![q] + b.drop_first() =~= b);
    }
}

/// Round trip: a snapshot parses back to exactly the batch it was
/// written from, record for record and byte for byte in every field.
pub proof fn lemma_snapshot_round_trip(b: Seq<QuoteView>)
    ensures
        parse_snapshot_bytes(snapshot_bytes(b)) == Some(b),
{
    let s = snapshot_bytes(b);
    assert(s == header() + enc_rows(b));
    assert(s.len() >= header().len());
    assert(s.take(header().len() as int) =~= header());
    assert(s.skip(header().len() as int) =~= enc_rows(b));
    lemma_parse_rows_enc(b);
}

/// An empty batch still yields a valid snapshot: the bare header, which
/// parses back to the empty batch.
pub proof fn lemma_empty_snapshot_parses()
    ensures
        snapshot_bytes(Seq::<QuoteView>::empty()) == header(),
        parse_snapshot_bytes(header()) == Some(Seq::<QuoteView>::empty()),
{
    lemma_snapshot_round_trip(Seq::<QuoteView>::empty());
    assert(header() + enc_rows(Seq::<QuoteView>::empty()) =~= header());
}

proof fn lemma_scan_plain_char(s: Seq<u8>, k: int)
    requires
        0 <= k <= s.len(),
        forall|j: int| 0 <= j < k ==> !(#[trigger] s[j] == 44 || s[j] == 10),
        k == s.len() || s[k] == 44 || s[k] == 10,
    ensures
        scan_plain(s) == k,
    decreases s.len(),
{
    if s.len() == 0 {
    } else if s.first() == 44 || s.first() == 10 {
        assert(k == 0);
    } else {
        assert(k >= 1);
        let t = s.drop_first();
        assert(forall|j: int| 0 <= j < k - 1 ==> !(#[trigger] t[j] == 44 || t[j] == 10)) by {
            assert(forall|j: int| 0 <= j < k - 1 ==> t[j] == s[j + 1]);
        }
        lemma_scan_plain_char(t, k - 1);
    }
}

fn scan_plain_from(data: &Vec<u8>, i: usize) -> (j: usize)
    requires
        i <= data@.len(),
    ensures
        i <= j <= data@.len(),
        j - i == scan_plain(data@.skip(i as int)),
{
    let mut j = i;
    while j < data.len() && data[j] != 44 && data[j] != 10
        invariant
            i <= j <= data@.len(),
            forall|m: int| i <= m < j ==> !(#[trigger] data@[m] == 44 || data@[m] == 10),
        decreases data@.len() - j,
    {
        j = j + 1;
    }
    proof {
        let rem = data@.skip(i as int);
        assert(forall|m: int| 0 <= m < j - i ==> rem[m] == data@[m + i]);
        if j < data@.len() {
            assert(rem[j - i] == data@[j as int]);
        }
        lemma_scan_plain_char(rem, j - i);
    }
    j
}

proof fn lemma_scan_plain_bounds(s: Seq<u8>)
    ensures
        0 <= scan_plain(s) <= s.len(),
    decreases s.len(),
{
    if s.len() > 0 && !(s.first() == 44 || s.first() == 10) {
        lemma_scan_plain_bounds(s.drop_first());
    }
}

proof fn lemma_parse_quoted_bounds(s: Seq<u8>)
    ensures
        parse_quoted(s) matches Some((f, n)) ==> 1 <= n <= s.len(),
    decreases s.len(),
{
    if s.len() == 0 {
    } else if s.first() == 34 {
        if s.len() >= 2 && s[1] == 34 {
            lemma_parse_quoted_bounds(s.skip(2));
        }
    } else {
        lemma_parse_quoted_bounds(s.drop_first());
    }
}

proof fn lemma_parse_field_bounds(s: Seq<u8>)
    ensures
        parse_field(s) matches Some((f, n)) ==> 0 <= n <= s.len(),
{
    if s.len() > 0 && s.first() == 34 {
        lemma_parse_quoted_bounds(s.drop_first());
    } else {
        lemma_scan_plain_bounds(s);
    }
}

fn parse_quoted_from(data: &Vec<u8>, i: usize, out: &mut Vec<u8>) -> (r: Option<usize>)
    requires
        i <= data@.len(),
    ensures
        ({
            let res = parse_quoted(data@.skip(i as int));
            match res {
                None => r is None,
                Some((f, n)) => r matches Some(j) && j == i + n && i + n <= data@.len()
                    && final(out)@ == old(out)@ + f,
            }
        }),
    decreases data@.len() - i,
{
    if i >= data.len() {
        return None;
    }
    let b = data[i];
    proof {
        assert(data@.skip(i as int).first() == data@[i as int]);
    }
    if b == 34 {
        if i + 1 < data.len() && data[i + 1] == 34 {
            proof {
                assert(data@.skip(i as int)[1] == data@[i + 1]);
                assert(data@.skip(i as int).skip(2) =~= data@.skip(i + 2));
            }
            out.push(34);
            let r = parse_quoted_from(data, i + 2, out);
            proof {
                match parse_quoted(data@.skip(i + 2)) {
                    None => {},
                    Some((f2, n2)) => {
                        assert(out@ =~= old(out)@ + (seq![34u8] + f2));
                    },
                }
            }
            r
        } else {
            proof {
                if data@.skip(i as int).len() >= 2 {
                    assert(data@.skip(i as int)[1] == data@[i + 1]);
                }
                assert(out@ =~= old(out)@ + Seq::<u8>::empty());
            }
            Some(i + 1)
        }
    } else {
        proof {
            assert(data@.skip(i as int).drop_first() =~= data@.skip(i + 1));
        }
        out.push(b);
        let r = parse_quoted_from(data, i + 1, out);
        proof {
            match parse_quoted(data@.skip(i + 1)) {
                None => {},
                Some((f2, n2)) => {
                    assert(out@ =~= old(out)@ + (seq![data@[i as int]] + f2));
                },
            }
        }
        r
    }
}

fn parse_field_from(data: &Vec<u8>, i: usize) -> (r: Option<(Vec<u8>, usize)>)
    requires
        i <= data@.len(),
    ensures
        ({
            let res = parse_field(data@.skip(i as int));
            match res {
                None => r is None,
                Some((f, n)) => r matches Some((fv, j)) && fv@ == f && j == i + n && i + n
                    <= data@.len(),
            }
        }),
{
    proof {
        if i < data@.len() {
            assert(data@.skip(i as int).first() == data@[i as int]);
        }
    }
    if i < data.len() && data[i] == 34 {
        let mut fv: Vec<u8> = Vec::new();
        proof {
            assert(data@.skip(i as int).drop_first() =~= data@.skip(i + 1));
        }
        match parse_quoted_from(data, i + 1, &mut fv) {
            None => None,
            Some(j) => Some((fv, j)),
        }
    } else {
        let j = scan_plain_from(data, i);
        let mut fv: Vec<u8> = Vec::new();
        let mut k = i;
        while k < j
            invariant
                i <= k <= j <= data@.len(),
                fv@ == data@.subrange(i as int, k as int),
            decreases j - k,
        {
            fv.push(data[k]);
            proof {
                assert(fv@ =~= data@.subrange(i as int, k + 1));
            }
            k = k + 1;
        }
        proof {
            assert(data@.subrange(i as int, j as int) =~= data@.skip(i as int).take(j - i));
        }
        Some((fv, j))
    }
}

pub open spec fn fieldviews(fs: Seq<Vec<u8>>) -> Seq<Seq<u8>> {
    fs.map_values(|v: Vec<u8>| v@)
}

fn parse_fields_from(data: &Vec<u8>, i: usize, k: usize) -> (r: Option<(Vec<Vec<u8>>, usize)>)
    requires
        i <= data@.len(),
        1 <= k,
    ensures
        ({
            let res = parse_fields(data@.skip(i as int), k as nat);
            match res {
                None => r is None,
                Some((fs, n)) => r matches Some((fsv, j)) && fieldviews(fsv@) == fs && j == i + n
                    && i + n <= data@.len(),
            }
        }),
    decreases k,
{
    match parse_field_from(data, i) {
        None => None,
        Some((fv, j)) => {
            proof {
                lemma_parse_field_bounds(data@.skip(i as int));
                let n = (j - i) as int;
                assert(data@.skip(i as int).skip(n) =~= data@.skip(j as int));
                if j < data@.len() {
                    assert(data@.skip(j as int).first() == data@[j as int]);
                }
            }
            if k == 1 {
                if j < data.len() && data[j] == 10 {
                    let mut fsv: Vec<Vec<u8>> = Vec::new();
                    fsv.push(fv);
                    proof {
                        assert(fieldviews(fsv@) =~= seq![fv@]);
                    }
                    Some((fsv, j + 1))
                } else {
                    None
                }
            } else {
                if j < data.len() && data[j] == 44 {
                    proof {
                        assert(data@.skip(j as int).skip(1) =~= data@.skip(j + 1));
                    }
                    match parse_fields_from(data, j + 1, k - 1) {
                        None => None,
                        Some((fsv, m)) => {
                            let mut fsv = fsv;
                            let ghost prev = fsv@;
                            fsv.insert(0, fv);
                            proof {
                                assert(fieldviews(fsv@) =~= seq![fv@] + fieldviews(prev));
                            }
                            Some((fsv, m))
                        },
                    }
                } else {
                    None
                }
            }
        },
    }
}

/// Rebuilds one record from its eight parsed columns.
pub fn row_from_fields(fields: Vec<Vec<u8>>) -> (r: Option<CSVQuote>)
    ensures
        ({
            let res = row_of_fields(fieldviews(fields@));
            match res {
                None => r is None,
                Some(q) => r matches Some(rec) && rec@ == q,
            }
        }),
{
    let ghost fvs = fieldviews(fields@);
    if fields.len() != 8 {
        return None;
    }
    let mut fs = fields;
    let volume_f = fs.pop().unwrap();
    let low = fs.pop().unwrap();
    let high = fs.pop().unwrap();
    let adjclose = fs.pop().unwrap();
    let close = fs.pop().unwrap();
    let open = fs.pop().unwrap();
    let ts_f = fs.pop().unwrap();
    let name = fs.pop().unwrap();
    proof {
        assert(name@ == fvs[0]);
        assert(ts_f@ == fvs[1]);
        assert(open@ == fvs[2]);
        assert(close@ == fvs[3]);
        assert(adjclose@ == fvs[4]);
        assert(high@ == fvs[5]);
        assert(low@ == fvs[6]);
        assert(volume_f@ == fvs[7]);
    }
    let timestamp = match field_to_u64(&ts_f) {
        Some(t) => t,
        None => {
            return None;
        },
    };
    let volume = match field_to_u64(&volume_f) {
        Some(v) => v,
        None => {
            return None;
        },
    };
    let rec = CSVQuote { name, timestamp, open, close, adjclose, high, low, volume };
    proof {
        assert(parse_u64(fvs[1]) == Some(timestamp));
        assert(parse_u64(fvs[7]) == Some(volume));
        assert(rec@ =~= (QuoteView {
            name: fvs[0],
            timestamp,
            open: fvs[2],
            close: fvs[3],
            adjclose: fvs[4],
            high: fvs[5],
            low: fvs[6],
            volume,
        }));
        assert(row_of_fields(fvs) == Some(rec@));
    }
    Some(rec)
}

pub open spec fn opt_prepend(pre: Seq<QuoteView>, r: Option<Seq<QuoteView>>) -> Option<
    Seq<QuoteView>,
> {
    match r {
        None => None,
        Some(qs) => Some(pre + qs),
    }
}

fn parse_rows_from(data: &Vec<u8>, start: usize) -> (r: Option<Vec<CSVQuote>>)
    requires
        start <= data@.len(),
    ensures
        ({
            let res = parse_rows(data@.skip(start as int));
            match res {
                None => r is None,
                Some(qs) => r matches Some(v) && views(v@) == qs,
            }
        }),
{
    let mut acc: Vec<CSVQuote> = Vec::new();
    let mut i = start;
    while i < data.len()
        invariant
            start <= i <= data@.len(),
            parse_rows(data@.skip(start as int)) == opt_prepend(
                views(acc@),
                parse_rows(data@.skip(i as int)),
            ),
        decreases data@.len() - i,
    {
        let res = parse_fields_from(data, i, 8);
        match res {
            None => {
                return None;
            },
            Some((fsv, j)) => {
                match row_from_fields(fsv) {
                    None => {
                        return None;
                    },
                    Some(rec) => {
                        if j <= i {
                            return None;
                        }
                        proof {
                            let s = data@.skip(i as int);
                            let n = (j - i) as int;
                            assert(s.skip(n) =~= data@.skip(j as int));
                            let ghost prev = acc@;
                            match parse_rows(data@.skip(j as int)) {
                                None => {},
                                Some(qs) => {
                                    assert(views(prev.push(rec)) =~= views(prev) + seq![rec@]);
                                    assert(views(prev) + (seq![rec@] + qs) =~= (views(prev)
                                        + seq![rec@]) + qs);
                                },
                            }
                        }
                        acc.push(rec);
                        i = j;
                    },
                }
            },
        }
    }
    proof {
        assert(data@.skip(i as int) =~= Seq::<u8>::empty());
        assert(views(acc@) + Seq::<QuoteView>::empty() =~= views(acc@));
    }
    Some(acc)
}

/// Reads a snapshot back: the exact header, then one record per row.
/// Returns the records in file order, or `None` when the bytes are not a
/// well-formed snapshot.
pub fn parse_snapshot(data: &Vec<u8>) -> (r: Option<Vec<CSVQuote>>)
    ensures
        ({
            let res = parse_snapshot_bytes(data@);
            match res {
                None => r is None,
                Some(qs) => r matches Some(v) && views(v@) == qs,
            }
        }),
{
    let h = header_row();
    if data.len() < h.len() {
        return None;
    }
    let mut k: usize = 0;
    while k < h.len()
        invariant
            0 <= k <= h@.len(),
            h@ == header(),
            data@.len() >= h@.len(),
            forall|m: int| 0 <= m < k ==> data@[m] == header()[m],
        decreases h@.len() - k,
    {
        if data[k] != h[k] {
            proof {
                assert(data@.take(header().len() as int)[k as int] != header()[k as int]);
            }
            return None;
        }
        k = k + 1;
    }
    proof {
        assert(data@.take(header().len() as int) =~= header());
    }
    parse_rows_from(data, h.len())
}

} // verus!
