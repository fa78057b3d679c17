//! Paging through the Binance klines endpoint.
//!
//! A download asks for up to `KLINE_LIMIT` candles at a time, starting at the
//! requested start time. A page's candles are written out when they are
//! complete (at least `KLINE_FIELDS` fields) and open before the end time,
//! which is exclusive; the next page starts one millisecond after the open
//! time of the page's last candle. The download ends at the first empty page
//! or once the next start reaches the end time.

use vstd::prelude::*;

use crate::text::{
    decimal, is_digit, lemma_signed_decimal_injective, lemma_signed_decimal_shape, push_decimal,
    push_signed_decimal, signed_decimal, strip_trailing, without_trailing,
};

verus! {

/// Largest number of candles one request asks for.
pub const KLINE_LIMIT: u32 = 1000;

/// Number of leading fields a kline needs (open time, open, high, low, close, volume).
pub const KLINE_FIELDS: usize = 6;

/// `a / d` rounded toward zero, as Rust's integer division does.
pub open spec fn div_toward_zero(a: int, d: int) -> int {
    if a >= 0 {
        a / d
    } else {
        -((-a) / d)
    }
}

/// The base URL with every trailing `/` removed.
pub fn base_url_of(url: &str) -> (r: String)
    ensures
        r@ == strip_trailing(url@, '/'),
        r@.len() == 0 || r@.last() != '/',
{
    without_trailing(url, '/')
}

/// The request URL for one page of klines.
pub open spec fn kline_url_text(
    base: Seq<char>,
    symbol: Seq<char>,
    interval: Seq<char>,
    start_ms: int,
    end_ms: int,
) -> Seq<char> {
    base + "/api/v3/klines?symbol="@ + symbol + "&interval="@ + interval + "&startTime="@
        + signed_decimal(start_ms) + "&endTime="@ + signed_decimal(end_ms) + "&limit="@ + decimal(
        KLINE_LIMIT as nat,
    )
}

/// The part of a request URL before its window: endpoint, symbol and interval.
pub open spec fn request_head(base: Seq<char>, symbol: Seq<char>, interval: Seq<char>) -> Seq<char> {
    base + "/api/v3/klines?symbol="@ + symbol + "&interval="@ + interval + "&startTime="@
}

/// The part of a request URL after its start time.
pub open spec fn request_tail(end_ms: int) -> Seq<char> {
    "&endTime="@ + signed_decimal(end_ms) + "&limit="@ + decimal(KLINE_LIMIT as nat)
}

/// A request URL asks for the page window it is built for: it starts with the
/// endpoint, symbol and interval followed by the numeral of `start_ms` as the
/// `startTime` parameter, and ends with the numeral of `end_ms` as the
/// `endTime` parameter followed by the page limit, and holds nothing else.
pub proof fn lemma_request_window(
    base: Seq<char>,
    symbol: Seq<char>,
    interval: Seq<char>,
    start_ms: int,
    end_ms: int,
)
    ensures
        ({
            let url = kline_url_text(base, symbol, interval, start_ms, end_ms);
            let head = request_head(base, symbol, interval) + signed_decimal(start_ms);
            let tail = request_tail(end_ms);
            &&& url.len() == head.len() + tail.len()
            &&& url.take(head.len() as int) == head
            &&& url.skip(head.len() as int) == tail
        }),
{
    let url = kline_url_text(base, symbol, interval, start_ms, end_ms);
    let head = request_head(base, symbol, interval) + signed_decimal(start_ms);
    let tail = request_tail(end_ms);
    assert(url =~= head + tail);
    assert(url.take(head.len() as int) =~= head);
    assert(url.skip(head.len() as int) =~= tail);
}

/// Requests for different windows differ: two request URLs for the same
/// endpoint, symbol and interval are equal only when their start times and
/// their end times are.
pub proof fn lemma_request_names_window(
    base: Seq<char>,
    symbol: Seq<char>,
    interval: Seq<char>,
    start1: int,
    end1: int,
    start2: int,
    end2: int,
)
    requires
        kline_url_text(base, symbol, interval, start1, end1) == kline_url_text(
            base,
            symbol,
            interval,
            start2,
            end2,
        ),
    ensures
        start1 == start2,
        end1 == end2,
{
    reveal_strlit("&endTime=");
    let f = request_head(base, symbol, interval);
    let a = signed_decimal(start1);
    let b = signed_decimal(start2);
    let m = "&endTime="@;
    let e1 = signed_decimal(end1);
    let e2 = signed_decimal(end2);
    let l = "&limit="@ + decimal(KLINE_LIMIT as nat);
    let u1 = kline_url_text(base, symbol, interval, start1, end1);
    let u2 = kline_url_text(base, symbol, interval, start2, end2);
    assert(u1 =~= f + a + m + e1 + l);
    assert(u2 =~= f + b + m + e2 + l);
    let x1 = f + a + m + e1;
    let x2 = f + b + m + e2;
    assert(u1.take(x1.len() as int) =~= x1);
    assert(u2.take(x2.len() as int) =~= x2);
    assert(x1.len() == x2.len());
    assert(x1 == x2);
    lemma_signed_decimal_shape(start1);
    lemma_signed_decimal_shape(start2);
    if a.len() < b.len() {
        let k = f.len() + a.len() as int;
        assert(x1[k] == m[0]);
        assert(x2[k] == b[a.len() as int]);
        assert(b[a.len() as int] == '-' || is_digit(b[a.len() as int]));
        assert(false);
    } else if b.len() < a.len() {
        let k = f.len() + b.len() as int;
        assert(x2[k] == m[0]);
        assert(x1[k] == a[b.len() as int]);
        assert(a[b.len() as int] == '-' || is_digit(a[b.len() as int]));
        assert(false);
    }
    assert(a =~= x1.subrange(f.len() as int, f.len() + a.len() as int));
    assert(b =~= x2.subrange(f.len() as int, f.len() + b.len() as int));
    assert(e1 =~= x1.skip(f.len() + a.len() + m.len() as int));
    assert(e2 =~= x2.skip(f.len() + b.len() + m.len() as int));
    lemma_signed_decimal_injective(start1, start2);
    lemma_signed_decimal_injective(end1, end2);
}

/// Builds the request URL for the page of `symbol` candles of `interval` from `start_ms` to `end_ms`.
pub fn kline_url(base: &str, symbol: &str, interval: &str, start_ms: i64, end_ms: i64) -> (r: String)
    ensures
        r@ == kline_url_text(base@, symbol@, interval@, start_ms as int, end_ms as int),
{
    let mut s = String::new();
    s.append(base);
    s.append("/api/v3/klines?symbol=");
    s.append(symbol);
    s.append("&interval=");
    s.append(interval);
    s.append("&startTime=");
    push_signed_decimal(&mut s, start_ms);
    s.append("&endTime=");
    push_signed_decimal(&mut s, end_ms);
    s.append("&limit=");
    push_decimal(&mut s, KLINE_LIMIT as u64);
    s
}

/// Whether a kline with `fields` fields carries a whole candle.
fn is_complete_kline(fields: usize) -> (r: bool)
    ensures
        r == (fields >= KLINE_FIELDS),
{
    fields >= KLINE_FIELDS
}

/// The candle timestamp, in seconds, of a kline whose open time (in milliseconds)
/// is `open_ms`; a missing or non-integer open time counts as 0.
pub fn open_time_secs(open_ms: Option<i64>) -> (r: i64)
    ensures
        r == div_toward_zero(
            match open_ms {
                Some(v) => v as int,
                None => 0,
            },
            1000,
        ),
{
    let ms = match open_ms {
        Some(v) => v,
        None => 0,
    };
    ms / 1000
}

/// What a page tells about one kline: its number of fields and its open time
/// in milliseconds (none when the first field is missing or not an integer).
#[derive(Clone, Copy, Debug, PartialEq, Eq, Structural)]
pub struct KlineHead {
    pub fields: usize,
    pub open_ms: Option<i64>,
}

/// The open time a kline is written with: a missing or non-integer one counts as 0.
pub open spec fn open_ms_of(k: KlineHead) -> int {
    match k.open_ms {
        Some(v) => v as int,
        None => 0,
    }
}

/// A kline becomes a candle row when it is complete and opens before the
/// (exclusive) end time.
pub open spec fn is_written(k: KlineHead, end_ms: int) -> bool {
    k.fields >= KLINE_FIELDS && open_ms_of(k) < end_ms
}

/// Number of klines of `ks` that become candle rows.
pub open spec fn written_count(ks: Seq<KlineHead>, end_ms: int) -> nat
    decreases ks.len(),
{
    if ks.len() == 0 {
        0
    } else {
        written_count(ks.drop_last(), end_ms) + if is_written(ks.last(), end_ms) {
            1nat
        } else {
            0nat
        }
    }
}

proof fn lemma_written_count_bounds(ks: Seq<KlineHead>, end_ms: int)
    ensures
        written_count(ks, end_ms) <= ks.len(),
        forall|k: int|
            0 <= k <= ks.len() ==> written_count(#[trigger] ks.take(k), end_ms) <= written_count(
                ks,
                end_ms,
            ),
    decreases ks.len(),
{
    if ks.len() > 0 {
        let front = ks.drop_last();
        lemma_written_count_bounds(front, end_ms);
        assert forall|k: int| 0 <= k <= ks.len() implies written_count(#[trigger] ks.take(k), end_ms)
            <= written_count(ks, end_ms) by {
            if k < ks.len() {
                assert(ks.take(k) =~= front.take(k));
            } else {
                assert(ks.take(k) =~= ks);
            }
        }
    }
}

fn written_row(k: KlineHead, end_ms: i64) -> (r: bool)
    ensures
        r == is_written(k, end_ms as int),
{
    let open = match k.open_ms {
        Some(v) => v,
        None => 0,
    };
    is_complete_kline(k.fields) && open < end_ms
}

/// Which klines of a page become candle rows of a download ending (exclusively) at `end_ms`.
pub fn kept_klines(heads: &Vec<KlineHead>, end_ms: i64) -> (keep: Vec<bool>)
    ensures
        keep.len() == heads.len(),
        forall|i: int| 0 <= i < heads.len() ==> #[trigger] keep@[i] == is_written(heads@[i], end_ms as int),
{
    let mut keep: Vec<bool> = Vec::new();
    let mut i: usize = 0;
    while i < heads.len()
        invariant
            i <= heads.len(),
            keep.len() == i,
            forall|j: int| 0 <= j < i ==> #[trigger] keep@[j] == is_written(heads@[j], end_ms as int),
        decreases heads.len() - i,
    {
        keep.push(written_row(heads[i], end_ms));
        i += 1;
    }
    keep
}

/// What to do after a page.
#[derive(Clone, Copy, Debug, PartialEq, Eq, Structural)]
pub enum PageStep {
    /// The download is over.
    Done,
    /// Ask for the next page, after a short pause when this page was full.
    Next { pause: bool },
}

/// The state of one paged download.
pub struct KlinePager {
    next_start: i64,
    end_ms: i64,
    rows: usize,
    finished: bool,
}

/// The pager's state: the start of the next page, the (exclusive) end time,
/// the number of rows written and whether an empty page ended the download.
pub struct PagerView {
    pub next_start: int,
    pub end_ms: int,
    pub rows: nat,
    pub finished: bool,
}

impl View for KlinePager {
    type V = PagerView;

    closed spec fn view(&self) -> PagerView {
        PagerView {
            next_start: self.next_start as int,
            end_ms: self.end_ms as int,
            rows: self.rows as nat,
            finished: self.finished,
        }
    }
}

/// The start of the page after a non-empty page whose last kline is `last`.
pub open spec fn next_page_start(last: KlineHead, end_ms: int) -> int {
    match last.open_ms {
        Some(t) => t + 1,
        None => end_ms + 1,
    }
}

impl KlinePager {
    /// A download of the candles opening from `start_ms` up to, not including, `end_ms`.
    pub fn new(start_ms: i64, end_ms: i64) -> (p: Self)
        ensures
            p@ == (PagerView { next_start: start_ms as int, end_ms: end_ms as int, rows: 0, finished: false }),
    {
        KlinePager { next_start: start_ms, end_ms, rows: 0, finished: false }
    }

    /// The start time of the next page to ask for, or none when the download is over.
    pub fn next_request(&self) -> (r: Option<i64>)
        ensures
            !self@.finished && self@.next_start < self@.end_ms ==> r == Some(self@.next_start as i64),
            self@.finished || self@.next_start >= self@.end_ms ==> r is None,
    {
        if self.finished || self.next_start >= self.end_ms {
            None
        } else {
            Some(self.next_start)
        }
    }

    /// The end time of the download (exclusive).
    pub fn end_ms(&self) -> (e: i64)
        ensures
            e == self@.end_ms,
    {
        self.end_ms
    }

    /// Number of candle rows written so far.
    pub fn rows(&self) -> (n: usize)
        ensures
            n == self@.rows,
    {
        self.rows
    }

    /// Takes in a page of klines, in the order received: counts the rows it
    /// gives (those `kept_klines` keeps) and moves to the next page.
    pub fn on_page(&mut self, heads: &Vec<KlineHead>) -> (step: PageStep)
        requires
            old(self)@.rows + written_count(heads@, old(self)@.end_ms) <= usize::MAX,
            heads.len() > 0 ==> heads@.last().fields > 0 && next_page_start(heads@.last(), old(self)@.end_ms) <= i64::MAX,
        ensures
            heads.len() == 0 ==> step == PageStep::Done && final(self)@ == (PagerView {
                finished: true,
                ..old(self)@
            }),
            heads.len() > 0 ==> step == (PageStep::Next { pause: heads.len() == KLINE_LIMIT })
                && final(self)@ == (PagerView {
                next_start: next_page_start(heads@.last(), old(self)@.end_ms),
                rows: old(self)@.rows + written_count(heads@, old(self)@.end_ms),
                ..old(self)@
            }),
    {
        if heads.len() == 0 {
            self.finished = true;
            return PageStep::Done;
        }
        proof {
            lemma_written_count_bounds(heads@, self.end_ms as int);
        }
        let mut written: usize = 0;
        let mut i: usize = 0;
        while i < heads.len()
            invariant
                i <= heads.len(),
                written == written_count(heads@.take(i as int), self.end_ms as int),
                self.rows + written_count(heads@, self.end_ms as int) <= usize::MAX,
                forall|k: int|
                    0 <= k <= heads.len() ==> written_count(#[trigger] heads@.take(k), self.end_ms as int)
                        <= written_count(heads@, self.end_ms as int),
            decreases heads.len() - i,
        {
            assert(heads@.take(i + 1).drop_last() =~= heads@.take(i as int));
            if written_row(heads[i], self.end_ms) {
                written += 1;
            }
            i += 1;
        }
        assert(heads@.take(i as int) =~= heads@);
        self.rows = self.rows + written;
        let last = match heads[heads.len() - 1].open_ms {
            Some(t) => t,
            None => self.end_ms,
        };
        self.next_start = last + 1;
        PageStep::Next { pause: heads.len() == KLINE_LIMIT as usize }
    }
}

/// A download moves forward: after a non-empty page the next page starts
/// strictly after the last kline received, and the rows grow by at most the
/// page size.
pub proof fn lemma_pages_move_forward(before: PagerView, after: PagerView, heads: Seq<KlineHead>)
    requires
        heads.len() > 0,
        after == (PagerView {
            next_start: next_page_start(heads.last(), before.end_ms),
            rows: before.rows + written_count(heads, before.end_ms),
            ..before
        }),
    ensures
        before.rows <= after.rows <= before.rows + heads.len(),
        match heads.last().open_ms {
            Some(t) => after.next_start > t,
            None => after.next_start > after.end_ms,
        },
{
    lemma_written_count_bounds(heads, before.end_ms);
}

/// The end time is exclusive: klines that all open at or after it add no row.
pub proof fn lemma_no_rows_past_end(heads: Seq<KlineHead>, end_ms: int)
    requires
        forall|i: int| 0 <= i < heads.len() ==> open_ms_of(#[trigger] heads[i]) >= end_ms,
    ensures
        written_count(heads, end_ms) == 0,
    decreases heads.len(),
{
    if heads.len() > 0 {
        let front = heads.drop_last();
        assert forall|i: int| 0 <= i < front.len() implies open_ms_of(#[trigger] front[i]) >= end_ms by {
            assert(front[i] == heads[i]);
        }
        lemma_no_rows_past_end(front, end_ms);
        assert(open_ms_of(heads[heads.len() - 1]) >= end_ms);
    }
}

} // verus!
