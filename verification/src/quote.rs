use vstd::prelude::*;

verus! {

/// Mathematical model of one normalized quote: the symbol and the price
/// texts as byte sequences, the two integer fields as machine integers.
#[verifier::ext_equal]
pub ghost struct QuoteView {
    pub name: Seq<u8>,
    pub timestamp: u64,
    pub open: Seq<u8>,
    pub close: Seq<u8>,
    pub adjclose: Seq<u8>,
    pub high: Seq<u8>,
    pub low: Seq<u8>,
    pub volume: u64,
}

/// One successfully fetched quote, normalized for the snapshot.
///
/// The symbol and the five price fields are held as their textual bytes:
/// the prices pass through this library unmodified, exactly as the caller
/// rendered them, and the snapshot stores text anyway. The timestamp
/// (seconds since epoch) and the volume are machine integers.
#[derive(Debug, Clone, PartialEq, Eq)]
pub struct CSVQuote {
    pub name: Vec<u8>,
    pub timestamp: u64,
    pub open: Vec<u8>,
    pub close: Vec<u8>,
    pub adjclose: Vec<u8>,
    pub high: Vec<u8>,
    pub low: Vec<u8>,
    pub volume: u64,
}

impl View for CSVQuote {
    type V = QuoteView;

    open spec fn view(&self) -> QuoteView {
        QuoteView {
            name: self.name@,
            timestamp: self.timestamp,
            open: self.open@,
            close: self.close@,
            adjclose: self.adjclose@,
            high: self.high@,
            low: self.low@,
            volume: self.volume,
        }
    }
}

/// A quote record is well formed when its symbol is non-empty; records are
/// only built from a successful fetch of a configured (non-empty) symbol.
pub open spec fn quote_wf(q: QuoteView) -> bool {
    q.name.len() > 0
}

impl CSVQuote {
    /// Builds the record for one successful fetch, field for field.
    pub fn new(
        name: Vec<u8>,
        timestamp: u64,
        open: Vec<u8>,
        close: Vec<u8>,
        adjclose: Vec<u8>,
        high: Vec<u8>,
        low: Vec<u8>,
        volume: u64,
    ) -> (q: Self)
        requires
            name@.len() > 0,
        ensures
            q@ == (QuoteView {
                name: name@,
                timestamp,
                open: open@,
                close: close@,
                adjclose: adjclose@,
                high: high@,
                low: low@,
                volume,
            }),
            quote_wf(q@),
    {
        CSVQuote { name, timestamp, open, close, adjclose, high, low, volume }
    }
}

} // verus!
