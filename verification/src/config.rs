//! Configuration read from environment variables: defaults and value parsing.
//! (Reading the environment is the application's part; it hands each
//! variable over as `Some(text)`, or `None` when it is unset.)

use vstd::prelude::*;

use crate::text::{chars_of, parse_u32, parsed_u32, push_range, trim, trim_bounds, trim_end, trim_start};

verus! {

/// What to download.
pub struct DownloadConfig {
    pub symbols: Vec<String>,
    pub interval: String,
    pub months: u32,
}

/// Binance credentials and endpoint.
pub struct BinanceConfig {
    pub api_key: String,
    pub api_secret: String,
    pub base_url: String,
}

/// Lighter endpoint.
pub struct LighterConfig {
    pub api_url: String,
}

/// The text of a variable, or `default` when it is unset.
pub open spec fn text_or(value: Option<String>, default: Seq<char>) -> Seq<char> {
    match value {
        Some(v) => v@,
        None => default,
    }
}

/// The variable's text, or `default` when it is unset.
pub fn value_or(value: Option<String>, default: &str) -> (r: String)
    ensures
        r@ == text_or(value, default@),
{
    match value {
        Some(v) => v,
        None => default.to_owned(),
    }
}

/// The number a variable holds, or `default` when it is unset or not a `u32`.
pub open spec fn number_or(value: Option<String>, default: u32) -> u32 {
    match value {
        Some(v) => match parsed_u32(v@) {
            Some(n) => n,
            None => default,
        },
        None => default,
    }
}

/// The variable's value as a `u32`, or `default` when it is unset or does not parse.
pub fn parsed_or(value: Option<String>, default: u32) -> (r: u32)
    ensures
        r == number_or(value, default),
{
    match value {
        Some(v) => match parse_u32(v.as_str()) {
            Some(n) => n,
            None => default,
        },
        None => default,
    }
}

// ---------------------------------------------------------------------------
// Comma-separated lists
// ---------------------------------------------------------------------------

/// Splitting `s` at each `sep`, read left to right: the finished pieces and
/// the piece still being read.
pub open spec fn split_state(s: Seq<char>, sep: char) -> (Seq<Seq<char>>, Seq<char>)
    decreases s.len(),
{
    if s.len() == 0 {
        (Seq::empty(), Seq::empty())
    } else {
        let (done, cur) = split_state(s.drop_last(), sep);
        if s.last() == sep {
            (done.push(cur), Seq::empty())
        } else {
            (done, cur.push(s.last()))
        }
    }
}

/// The pieces of `s` between the separators `sep` (`str::split`): one more
/// than there are separators.
pub open spec fn split_pieces(s: Seq<char>, sep: char) -> Seq<Seq<char>> {
    let (done, cur) = split_state(s, sep);
    done.push(cur)
}

/// The trimmed pieces that are not empty, in order.
pub open spec fn kept_trimmed(pieces: Seq<Seq<char>>) -> Seq<Seq<char>>
    decreases pieces.len(),
{
    if pieces.len() == 0 {
        Seq::empty()
    } else {
        let rest = kept_trimmed(pieces.drop_last());
        if trim(pieces.last()).len() > 0 {
            rest.push(trim(pieces.last()))
        } else {
            rest
        }
    }
}

/// The entries of a comma-separated list: each piece trimmed, empty ones dropped.
pub open spec fn list_entries(s: Seq<char>) -> Seq<Seq<char>> {
    kept_trimmed(split_pieces(s, ','))
}

/// The strings of `v` as character sequences.
pub open spec fn string_views(v: Seq<String>) -> Seq<Seq<char>> {
    Seq::new(v.len(), |i: int| v[i]@)
}

fn push_trimmed(out: &mut Vec<String>, piece: &Vec<char>)
    ensures
        string_views(final(out)@) == if trim(piece@).len() > 0 {
            string_views(old(out)@).push(trim(piece@))
        } else {
            string_views(old(out)@)
        },
{
    let (lo, hi) = trim_bounds(piece);
    if lo < hi {
        let mut s = String::new();
        push_range(&mut s, piece, lo, hi);
        out.push(s);
        assert(string_views(out@) =~= string_views(old(out)@).push(trim(piece@)));
    }
}

/// Parses a comma-separated list: splits at `,`, trims each entry and drops
/// the empty ones (so `" BTCUSDT, ,ETHUSDT "` gives `BTCUSDT`, `ETHUSDT`).
pub fn parse_list(raw: &str) -> (r: Vec<String>)
    ensures
        string_views(r@) == list_entries(raw@),
        forall|i: int| 0 <= i < r.len() ==> (#[trigger] r@[i])@.len() > 0,
{
    let v = chars_of(raw);
    let mut out: Vec<String> = Vec::new();
    let mut cur: Vec<char> = Vec::new();
    let mut i: usize = 0;
    while i < v.len()
        invariant
            i <= v.len(),
            v@ == raw@,
            string_views(out@) == kept_trimmed(split_state(v@.take(i as int), ',').0),
            cur@ == split_state(v@.take(i as int), ',').1,
        decreases v.len() - i,
    {
        let ghost prefix = v@.take(i + 1);
        assert(prefix.drop_last() =~= v@.take(i as int));
        if v[i] == ',' {
            push_trimmed(&mut out, &cur);
            cur = Vec::new();
            let ghost (d, c) = split_state(v@.take(i as int), ',');
            assert(d.push(c).drop_last() =~= d);
        } else {
            cur.push(v[i]);
        }
        i += 1;
    }
    assert(v@.take(i as int) =~= v@);
    let ghost (d, c) = split_state(v@, ',');
    push_trimmed(&mut out, &cur);
    assert(d.push(c).drop_last() =~= d);
    proof {
        lemma_kept_nonempty(split_pieces(raw@, ','));
    }
    assert(string_views(out@) == kept_trimmed(split_pieces(raw@, ',')));
    assert forall|i: int| 0 <= i < out.len() implies (#[trigger] out@[i])@.len() > 0 by {
        assert(string_views(out@)[i] == out@[i]@);
        assert(kept_trimmed(split_pieces(raw@, ','))[i].len() > 0);
    }
    out
}

proof fn lemma_kept_nonempty(pieces: Seq<Seq<char>>)
    ensures
        forall|i: int| 0 <= i < kept_trimmed(pieces).len() ==> #[trigger] kept_trimmed(pieces)[i].len() > 0,
    decreases pieces.len(),
{
    if pieces.len() > 0 {
        lemma_kept_nonempty(pieces.drop_last());
        let rest = kept_trimmed(pieces.drop_last());
        let k = kept_trimmed(pieces);
        assert forall|i: int| 0 <= i < k.len() implies #[trigger] k[i].len() > 0 by {
            if i < rest.len() {
                assert(k[i] == rest[i]);
            }
        }
    }
}

/// The entries written as one comma-separated list.
pub open spec fn joined(xs: Seq<Seq<char>>) -> Seq<char>
    decreases xs.len(),
{
    if xs.len() == 0 {
        Seq::empty()
    } else if xs.len() == 1 {
        xs[0]
    } else {
        joined(xs.drop_last()) + seq![','] + xs.last()
    }
}

/// An entry that a list keeps as it is: not empty, without commas and
/// without surrounding white space.
pub open spec fn is_clean_entry(x: Seq<char>) -> bool {
    x.len() > 0 && !x.contains(',') && trim(x) == x
}

proof fn lemma_split_without_sep(s: Seq<char>, t: Seq<char>, sep: char)
    requires
        !t.contains(sep),
    ensures
        split_state(s + t, sep) == (split_state(s, sep).0, split_state(s, sep).1 + t),
    decreases t.len(),
{
    if t.len() == 0 {
        assert(s + t =~= s);
        assert(split_state(s, sep).1 + t =~= split_state(s, sep).1);
    } else {
        let t2 = t.drop_last();
        assert(!t2.contains(sep)) by {
            if t2.contains(sep) {
                let k = choose|k: int| 0 <= k < t2.len() && t2[k] == sep;
                assert(t[k] == sep);
            }
        }
        lemma_split_without_sep(s, t2, sep);
        assert((s + t).drop_last() =~= s + t2);
        assert((s + t).last() == t.last());
        assert(t[t.len() - 1] != sep);
        assert((split_state(s, sep).1 + t2).push(t.last()) =~= split_state(s, sep).1 + t);
    }
}

proof fn lemma_split_joined(xs: Seq<Seq<char>>)
    requires
        xs.len() > 0,
        forall|i: int| 0 <= i < xs.len() ==> !(#[trigger] xs[i]).contains(','),
    ensures
        split_pieces(joined(xs), ',') == xs,
    decreases xs.len(),
{
    if xs.len() == 1 {
        lemma_split_without_sep(Seq::empty(), xs[0], ',');
        assert(Seq::<char>::empty() + xs[0] =~= xs[0]);
        assert(Seq::<char>::empty() + xs[0] =~= xs[0]);
        assert(split_pieces(joined(xs), ',') =~= xs);
    } else {
        let front = xs.drop_last();
        lemma_split_joined(front);
        let s = joined(front).push(',');
        assert(s.drop_last() =~= joined(front));
        assert(joined(xs) =~= s + xs.last());
        lemma_split_without_sep(s, xs.last(), ',');
        assert(Seq::<char>::empty() + xs.last() =~= xs.last());
        assert(split_pieces(joined(xs), ',') =~= front.push(xs.last()));
    }
}

proof fn lemma_kept_clean(xs: Seq<Seq<char>>)
    requires
        forall|i: int| 0 <= i < xs.len() ==> is_clean_entry(#[trigger] xs[i]),
    ensures
        kept_trimmed(xs) == xs,
    decreases xs.len(),
{
    if xs.len() > 0 {
        let front = xs.drop_last();
        assert forall|i: int| 0 <= i < front.len() implies is_clean_entry(#[trigger] front[i]) by {
            assert(front[i] == xs[i]);
        }
        lemma_kept_clean(front);
        assert(is_clean_entry(xs[xs.len() - 1]));
        assert(front.push(xs.last()) =~= xs);
    }
}

/// Reading back a written list: joining clean entries with commas and parsing
/// the result with `parse_list` gives the same entries.
pub proof fn lemma_list_round_trip(xs: Seq<Seq<char>>)
    requires
        forall|i: int| 0 <= i < xs.len() ==> is_clean_entry(#[trigger] xs[i]),
    ensures
        list_entries(joined(xs)) == xs,
{
    if xs.len() == 0 {
        let e = Seq::<char>::empty();
        assert(trim_start(e) == e);
        assert(trim_end(e) == e);
        assert(split_pieces(e, ',') =~= seq![e]);
        assert(seq![e].drop_last() =~= Seq::<Seq<char>>::empty());
        assert(kept_trimmed(Seq::<Seq<char>>::empty()) == Seq::<Seq<char>>::empty());
        assert(trim(e).len() == 0);
        assert(kept_trimmed(seq![e]) =~= Seq::<Seq<char>>::empty());
        assert(list_entries(joined(xs)) =~= xs);
    } else {
        assert forall|i: int| 0 <= i < xs.len() implies !(#[trigger] xs[i]).contains(',') by {
            assert(is_clean_entry(xs[i]));
        }
        lemma_split_joined(xs);
        lemma_kept_clean(xs);
    }
}

// ---------------------------------------------------------------------------
// Sections
// ---------------------------------------------------------------------------

impl DownloadConfig {
    /// The download settings from the variables `DOWNLOAD_SYMBOLS` (default
    /// `BTCUSDT,ETHUSDT,SOLUSDT`), `DOWNLOAD_INTERVAL` (default `1h`) and
    /// `DOWNLOAD_MONTHS` (default 9).
    pub fn from_values(symbols: Option<String>, interval: Option<String>, months: Option<String>) -> (r: Self)
        ensures
            string_views(r.symbols@) == list_entries(text_or(symbols, "BTCUSDT,ETHUSDT,SOLUSDT"@)),
            r.interval@ == text_or(interval, "1h"@),
            r.months == number_or(months, 9),
    {
        let list = value_or(symbols, "BTCUSDT,ETHUSDT,SOLUSDT");
        DownloadConfig {
            symbols: parse_list(list.as_str()),
            interval: value_or(interval, "1h"),
            months: parsed_or(months, 9),
        }
    }
}

impl BinanceConfig {
    /// The Binance settings from `BINANCE_API_KEY` and `BINANCE_API_SECRET`
    /// (default empty) and `BINANCE_BASE_URL` (default `https://api.binance.com`).
    pub fn from_values(api_key: Option<String>, api_secret: Option<String>, base_url: Option<String>) -> (r: Self)
        ensures
            r.api_key@ == text_or(api_key, ""@),
            r.api_secret@ == text_or(api_secret, ""@),
            r.base_url@ == text_or(base_url, "https://api.binance.com"@),
    {
        BinanceConfig {
            api_key: value_or(api_key, ""),
            api_secret: value_or(api_secret, ""),
            base_url: value_or(base_url, "https://api.binance.com"),
        }
    }
}

impl LighterConfig {
    /// The Lighter settings from `LIGHTER_API_URL`
    /// (default `https://mainnet.zklighter.elliot.ai/api/v1`).
    pub fn from_values(api_url: Option<String>) -> (r: Self)
        ensures
            r.api_url@ == text_or(api_url, "https://mainnet.zklighter.elliot.ai/api/v1"@),
    {
        LighterConfig { api_url: value_or(api_url, "https://mainnet.zklighter.elliot.ai/api/v1") }
    }
}

} // verus!
