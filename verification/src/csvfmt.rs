use vstd::prelude::*;

use crate::digits::{push_u64_dec, u64_dec};
use crate::quote::{CSVQuote, QuoteView};

verus! {

// Byte values that shape the format: 34 is the double quote, 44 the comma,
// 10 the line feed, 13 the carriage return.

/// Why a snapshot could not be persisted. Writing is fatal when it fails:
/// the snapshot file is the one shared resource of the whole process.
#[derive(Debug, Clone, PartialEq, Eq)]
pub enum WriteError {
    /// A record could not be serialized. The verified encoder below is
    /// total, so the library itself never raises this; the kind stays
    /// distinct for callers that persist through other channels.
    Serialization { cause: String },
    /// The destination could not be written (permissions, missing
    /// directory, full disk); carries the cause as text.
    Filesystem { cause: String },
}

/// A byte that cannot stand bare inside a field.
pub open spec fn is_special(b: u8) -> bool {
    b == 44 || b == 34 || b == 10 || b == 13
}

/// A field is written quoted exactly when it holds a special byte.
pub open spec fn needs_quote(f: Seq<u8>) -> bool {
    exists|i: int| 0 <= i < f.len() && #[trigger] is_special(f[i])
}

/// Field body under quoting: every double quote is doubled.
pub open spec fn esc(f: Seq<u8>) -> Seq<u8>
    decreases f.len(),
{
    if f.len() == 0 {
        Seq::empty()
    } else if f.first() == 34 {
        seq![34u8, 34u8] + esc(f.drop_first())
    } else {
        seq![f.first()] + esc(f.drop_first())
    }
}

pub open spec fn esc1(b: u8) -> Seq<u8> {
    if b == 34 {
        seq![34u8, 34u8]
    } else {
        seq![b]
    }
}

/// One encoded field: quoted and escaped when needed, bare otherwise.
pub open spec fn enc_field(f: Seq<u8>) -> Seq<u8> {
    if needs_quote(f) {
        seq![34u8] + esc(f) + seq![34u8]
    } else {
        f
    }
}

pub proof fn lemma_esc_snoc(s: Seq<u8>, b: u8)
    ensures
        esc(s.push(b)) == esc(s) + esc1(b),
    decreases s.len(),
{
    if s.len() == 0 {
        let t = s.push(b);
        assert(t.len() == 1);
        assert(t.first() == b);
        assert(t.drop_first() =~= Seq::<u8>::empty());
        assert(esc(t.drop_first()) == Seq::<u8>::empty());
        if b == 34 {
            assert(esc(t) == seq![34u8, 34u8] + esc(t.drop_first()));
        } else {
            assert(esc(t) == seq![t.first()] + esc(t.drop_first()));
        }
        assert(esc(s) == Seq::<u8>::empty());
        assert(esc(t) =~= esc(s) + esc1(b));
    } else {
        let t = s.push(b);
        assert(t.first() == s.first());
        assert(t.drop_first() =~= s.drop_first().push(b));
        lemma_esc_snoc(s.drop_first(), b);
        assert(esc(t.drop_first()) == esc(s.drop_first()) + esc1(b));
        if s.first() == 34 {
            assert(esc(t) == seq![34u8, 34u8] + esc(t.drop_first()));
            assert(esc(s) == seq![34u8, 34u8] + esc(s.drop_first()));
        } else {
            assert(esc(t) == seq![t.first()] + esc(t.drop_first()));
            assert(esc(s) == seq![s.first()] + esc(s.drop_first()));
        }
        assert(esc(t) =~= esc(s) + esc1(b));
    }
}

/// The fixed column header, followed by a line feed.
pub open spec fn header() -> Seq<u8> {
    seq![
        110u8, 97u8, 109u8, 101u8, 44u8,
        116u8, 105u8, 109u8, 101u8, 115u8, 116u8, 97u8, 109u8, 112u8, 44u8,
        111u8, 112u8, 101u8, 110u8, 44u8,
        99u8, 108u8, 111u8, 115u8, 101u8, 44u8,
        97u8, 100u8, 106u8, 99u8, 108u8, 111u8, 115u8, 101u8, 44u8,
        104u8, 105u8, 103u8, 104u8, 44u8,
        108u8, 111u8, 119u8, 44u8,
        118u8, 111u8, 108u8, 117u8, 109u8, 101u8, 10u8,
    ]
}

/// One encoded row: the eight columns in their fixed order, comma separated,
/// closed by a line feed. The two integer columns are decimal text and never
/// need quoting.
pub open spec fn enc_row(q: QuoteView) -> Seq<u8> {
    enc_field(q.name) + seq![44u8] + u64_dec(q.timestamp as nat) + seq![44u8] + enc_field(q.open)
        + seq![44u8] + enc_field(q.close) + seq![44u8] + enc_field(q.adjclose) + seq![44u8]
        + enc_field(q.high) + seq![44u8] + enc_field(q.low) + seq![44u8] + u64_dec(
        q.volume as nat,
    ) + seq![10u8]
}

pub open spec fn enc_rows(b: Seq<QuoteView>) -> Seq<u8>
    decreases b.len(),
{
    if b.len() == 0 {
        Seq::empty()
    } else {
        enc_row(b.first()) + enc_rows(b.drop_first())
    }
}

/// The whole snapshot: header, then one row per record, in batch order.
/// An empty batch yields the header alone.
pub open spec fn snapshot_bytes(b: Seq<QuoteView>) -> Seq<u8> {
    header() + enc_rows(b)
}

pub open spec fn views(b: Seq<CSVQuote>) -> Seq<QuoteView> {
    b.map_values(|q: CSVQuote| q@)
}

pub proof fn lemma_enc_rows_snoc(b: Seq<QuoteView>, q: QuoteView)
    ensures
        enc_rows(b.push(q)) == enc_rows(b) + enc_row(q),
    decreases b.len(),
{
    if b.len() == 0 {
        let t = b.push(q);
        assert(t.len() == 1);
        assert(t.first() == q);
        assert(t.drop_first() =~= Seq::<QuoteView>::empty());
        assert(enc_rows(t.drop_first()) == Seq::<u8>::empty());
        assert(enc_rows(t) == enc_row(t.first()) + enc_rows(t.drop_first()));
        assert(enc_rows(b) == Seq::<u8>::empty());
        assert(enc_rows(t) =~= enc_rows(b) + enc_row(q));
    } else {
        let t = b.push(q);
        assert(t.first() == b.first());
        assert(t.drop_first() =~= b.drop_first().push(q));
        lemma_enc_rows_snoc(b.drop_first(), q);
        assert(enc_rows(t.drop_first()) == enc_rows(b.drop_first()) + enc_row(q));
        assert(enc_rows(t) == enc_row(t.first()) + enc_rows(t.drop_first()));
        assert(enc_rows(b) == enc_row(b.first()) + enc_rows(b.drop_first()));
        assert(enc_rows(t) =~= enc_rows(b) + enc_row(q));
    }
}

fn field_needs_quote(f: &Vec<u8>) -> (r: bool)
    ensures
        r == needs_quote(f@),
{
    let mut i: usize = 0;
    while i < f.len()
        invariant
            0 <= i <= f@.len(),
            forall|j: int| 0 <= j < i ==> !#[trigger] is_special(f@[j]),
        decreases f@.len() - i,
    {
        let b = f[i];
        if b == 44 || b == 34 || b == 10 || b == 13 {
            assert(is_special(f@[i as int]));
            return true;
        }
        i = i + 1;
    }
    false
}

/// Appends one encoded field to `out`.
pub fn push_field(out: &mut Vec<u8>, f: &Vec<u8>)
    ensures
        final(out)@ == old(out)@ + enc_field(f@),
{
    if field_needs_quote(f) {
        out.push(34);
        let mut i: usize = 0;
        while i < f.len()
            invariant
                0 <= i <= f@.len(),
                needs_quote(f@),
                out@ == old(out)@ + seq![34u8] + esc(f@.take(i as int)),
            decreases f@.len() - i,
        {
            let b = f[i];
            out.push(b);
            if b == 34 {
                out.push(34);
            }
            proof {
                assert(f@.take(i + 1) =~= f@.take(i as int).push(f@[i as int]));
                lemma_esc_snoc(f@.take(i as int), f@[i as int]);
                assert(out@ =~= old(out)@ + seq![34u8] + esc(f@.take(i + 1)));
            }
            i = i + 1;
        }
        out.push(34);
        proof {
            assert(f@.take(f@.len() as int) =~= f@);
            assert(out@ =~= old(out)@ + enc_field(f@));
        }
    } else {
        out.extend_from_slice(f.as_slice());
        proof {
            assert(out@ =~= old(out)@ + enc_field(f@));
        }
    }
}

/// Appends one encoded row to `out`.
pub fn push_row(out: &mut Vec<u8>, q: &CSVQuote)
    ensures
        final(out)@ == old(out)@ + enc_row(q@),
{
    let ghost o0 = out@;
    let ghost x1 = enc_field(q@.name) + seq![44u8];
    let ghost x2 = x1 + u64_dec(q@.timestamp as nat) + seq![44u8];
    let ghost x3 = x2 + enc_field(q@.open) + seq![44u8];
    let ghost x4 = x3 + enc_field(q@.close) + seq![44u8];
    let ghost x5 = x4 + enc_field(q@.adjclose) + seq![44u8];
    let ghost x6 = x5 + enc_field(q@.high) + seq![44u8];
    let ghost x7 = x6 + enc_field(q@.low) + seq![44u8];
    push_field(out, &q.name);
    out.push(44);
    proof {
        assert(out@ =~= o0 + x1);
    }
    push_u64_dec(out, q.timestamp);
    out.push(44);
    proof {
        assert(out@ =~= o0 + x2);
    }
    push_field(out, &q.open);
    out.push(44);
    proof {
        assert(out@ =~= o0 + x3);
    }
    push_field(out, &q.close);
    out.push(44);
    proof {
        assert(out@ =~= o0 + x4);
    }
    push_field(out, &q.adjclose);
    out.push(44);
    proof {
        assert(out@ =~= o0 + x5);
    }
    push_field(out, &q.high);
    out.push(44);
    proof {
        assert(out@ =~= o0 + x6);
    }
    push_field(out, &q.low);
    out.push(44);
    proof {
        assert(out@ =~= o0 + x7);
    }
    push_u64_dec(out, q.volume);
    out.push(10);
    proof {
        assert(out@ =~= o0 + (x7 + u64_dec(q@.volume as nat) + seq![10u8]));
        assert(x7 + u64_dec(q@.volume as nat) + seq![10u8] =~= enc_row(q@));
    }
}

/// Builds the header row alone.
pub fn header_row() -> (v: Vec<u8>)
    ensures
        v@ == header(),
{
    let v: Vec<u8> = vec![
        110u8, 97u8, 109u8, 101u8, 44u8,
        116u8, 105u8, 109u8, 101u8, 115u8, 116u8, 97u8, 109u8, 112u8, 44u8,
        111u8, 112u8, 101u8, 110u8, 44u8,
        99u8, 108u8, 111u8, 115u8, 101u8, 44u8,
        97u8, 100u8, 106u8, 99u8, 108u8, 111u8, 115u8, 101u8, 44u8,
        104u8, 105u8, 103u8, 104u8, 44u8,
        108u8, 111u8, 119u8, 44u8,
        118u8, 111u8, 108u8, 117u8, 109u8, 101u8, 10u8,
    ];
    proof {
        assert(v@ =~= header());
    }
    v
}

/// Serializes the whole batch: the header, then one row per record, in
/// batch order. The result is a function of the batch alone, so the file
/// written from it holds the current cycle's data and nothing else.
pub fn encode_snapshot(batch: &Vec<CSVQuote>) -> (out: Vec<u8>)
    ensures
        out@ == snapshot_bytes(views(batch@)),
{
    let mut out = header_row();
    let mut i: usize = 0;
    while i < batch.len()
        invariant
            0 <= i <= batch@.len(),
            out@ == header() + enc_rows(views(batch@).take(i as int)),
        decreases batch@.len() - i,
    {
        push_row(&mut out, &batch[i]);
        proof {
            assert(views(batch@).take(i + 1) =~= views(batch@).take(i as int).push(batch@[i as int]@));
            lemma_enc_rows_snoc(views(batch@).take(i as int), batch@[i as int]@);
        }
        i = i + 1;
    }
    proof {
        assert(views(batch@).take(batch@.len() as int) =~= views(batch@));
    }
    out
}

} // verus!
