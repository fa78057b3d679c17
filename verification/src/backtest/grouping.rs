//! Splitting a candle stream into one stream per symbol.

use vstd::prelude::*;

use crate::text::{chars_of, lex_compare, lex_lt, lemma_lex_irreflexive, lemma_lex_total, lemma_lex_transitive, LexOrder};

verus! {

broadcast use vstd::seq_lib::lemma_seq_contains_after_push;

/// The candles of one symbol: the symbol and the positions of its candles in
/// the input, in input order.
pub struct SymbolGroup {
    pub symbol: String,
    pub members: Vec<usize>,
}

/// `groups` splits records `0..symbols.len()` by symbol: each record is in the
/// group of its symbol, groups are in ascending symbol order without repeats,
/// and each group lists its records in input order.
pub open spec fn is_symbol_grouping(symbols: Seq<Seq<char>>, keys: Seq<Seq<char>>, members: Seq<
    Seq<usize>,
>) -> bool {
    &&& keys.len() == members.len()
    &&& forall|g: int, h: int| 0 <= g < h < keys.len() ==> lex_lt(#[trigger] keys[g], #[trigger] keys[h])
    &&& forall|g: int|
        0 <= g < members.len() ==> {
            &&& #[trigger] members[g].len() > 0
            &&& forall|k: int, l: int|
                0 <= k < l < members[g].len() ==> #[trigger] members[g][k] < #[trigger] members[g][l]
            &&& forall|k: int|
                0 <= k < members[g].len() ==> #[trigger] members[g][k] < symbols.len()
                    && symbols[members[g][k] as int] == keys[g]
        }
    &&& forall|i: int| 0 <= i < symbols.len() ==> #[trigger] in_some_group(members, i)
}

/// Record `i` is listed in one of the groups.
pub open spec fn in_some_group(members: Seq<Seq<usize>>, i: int) -> bool {
    exists|g: int| 0 <= g < members.len() && #[trigger] members[g].contains(i as usize)
}

/// A record is in one group only: groups that both list record `i` are the same group.
pub proof fn lemma_record_in_one_group(
    symbols: Seq<Seq<char>>,
    keys: Seq<Seq<char>>,
    members: Seq<Seq<usize>>,
    i: usize,
    g: int,
    h: int,
)
    requires
        is_symbol_grouping(symbols, keys, members),
        0 <= g < members.len(),
        0 <= h < members.len(),
        members[g].contains(i),
        members[h].contains(i),
    ensures
        g == h,
{
    let a = choose|a: int| 0 <= a < members[g].len() && members[g][a] == i;
    let b = choose|b: int| 0 <= b < members[h].len() && members[h][b] == i;
    assert(symbols[members[g][a] as int] == keys[g]);
    assert(symbols[members[h][b] as int] == keys[h]);
    lemma_lex_irreflexive(keys[g]);
    if g < h {
        assert(lex_lt(keys[g], keys[h]));
    } else if h < g {
        assert(lex_lt(keys[h], keys[g]));
    }
}

/// The symbols of groups, as character sequences.
pub open spec fn group_keys(groups: Seq<SymbolGroup>) -> Seq<Seq<char>> {
    Seq::new(groups.len(), |g: int| groups[g].symbol@)
}

/// The members of groups.
pub open spec fn group_members(groups: Seq<SymbolGroup>) -> Seq<Seq<usize>> {
    Seq::new(groups.len(), |g: int| groups[g].members@)
}

/// The symbols of `v`, as character sequences.
pub open spec fn symbol_views(v: Seq<String>) -> Seq<Seq<char>> {
    Seq::new(v.len(), |i: int| v[i]@)
}

/// Groups records by symbol, in ascending symbol order (the per-asset split
/// of a backtest over several assets).
pub fn group_by_symbol(symbols: &Vec<String>) -> (groups: Vec<SymbolGroup>)
    ensures
        is_symbol_grouping(symbol_views(symbols@), group_keys(groups@), group_members(groups@)),
{
    let ghost sv = symbol_views(symbols@);
    let mut keys: Vec<Vec<char>> = Vec::new();
    let mut names: Vec<String> = Vec::new();
    let mut members: Vec<Vec<usize>> = Vec::new();
    let n = symbols.len();
    let mut i: usize = 0;
    while i < n
        invariant
            n == symbols.len(),
            sv == symbol_views(symbols@),
            i <= n,
            keys.len() == names.len() == members.len(),
            forall|g: int| 0 <= g < keys.len() ==> #[trigger] keys@[g]@ == names@[g]@,
            is_symbol_grouping(
                sv.take(i as int),
                Seq::new(keys.len() as nat, |g: int| keys@[g]@),
                Seq::new(members.len() as nat, |g: int| members@[g]@),
            ),
        decreases n - i,
    {
        let ghost ks = Seq::new(keys.len() as nat, |g: int| keys@[g]@);
        let ghost ms = Seq::new(members.len() as nat, |g: int| members@[g]@);
        let key = chars_of(symbols[i].as_str());
        assert(key@ == sv[i as int]);
        let mut p: usize = 0;
        let mut done = false;
        while !done
            invariant
                p <= keys.len(),
                ks == Seq::new(keys.len() as nat, |g: int| keys@[g]@),
                forall|g: int| 0 <= g < p ==> lex_lt(#[trigger] ks[g], key@),
                done ==> p == keys.len() || !lex_lt(ks[p as int], key@),
            decreases keys.len() - p, if done {
                0int
            } else {
                1int
            },
        {
            if p == keys.len() {
                done = true;
            } else if lex_compare(&keys[p], &key) == LexOrder::Before {
                p += 1;
            } else {
                done = true;
            }
        }
        let found = p < keys.len() && lex_compare(&keys[p], &key) == LexOrder::Same;
        let ghost old_sv = sv.take(i as int);
        let ghost new_sv = sv.take(i + 1);
        assert(new_sv =~= old_sv.push(key@));
        if found {
            assert(ks[p as int] == key@);
            let mut m = members.remove(p);
            m.push(i);
            members.insert(p, m);
            let ghost ms2 = Seq::new(members.len() as nat, |g: int| members@[g]@);
            assert(forall|g: int| 0 <= g < ms.len() && g != p ==> ms2[g] == ms[g]);
            assert(ms2[p as int] == ms[p as int].push(i));
            assert forall|j: int| 0 <= j < new_sv.len() implies #[trigger] in_some_group(ms2, j) by {
                if j < i {
                    assert(in_some_group(ms, j));
                    let g = choose|g: int| 0 <= g < ms.len() && #[trigger] ms[g].contains(j as usize);
                    assert(ms2[g].contains(j as usize));
                } else {
                    assert(ms2[p as int].contains(j as usize));
                    assert(ms2[p as int].contains(j as usize));
                }
            }
            assert(is_symbol_grouping(new_sv, ks, ms2));
        } else {
            proof {
                if p < keys.len() {
                    lemma_lex_total(ks[p as int], key@);
                }
            }
            let name = symbols[i].clone();
            let mut m: Vec<usize> = Vec::new();
            m.push(i);
            keys.insert(p, key);
            names.insert(p, name);
            members.insert(p, m);
            let ghost ks2 = Seq::new(keys.len() as nat, |g: int| keys@[g]@);
            let ghost ms2 = Seq::new(members.len() as nat, |g: int| members@[g]@);
            assert(ks2 =~= ks.insert(p as int, key@));
            assert(ms2 =~= ms.insert(p as int, seq![i]));
            assert forall|g: int, h: int| 0 <= g < h < ks2.len() implies lex_lt(
                #[trigger] ks2[g],
                #[trigger] ks2[h],
            ) by {
                if h < p {
                } else if h == p {
                } else if g < p {
                    if h > p + 1 {
                        lemma_lex_transitive(key@, ks[p as int], ks[h - 1]);
                    }
                    lemma_lex_transitive(ks2[g], key@, ks2[h]);
                } else if g == p {
                    if h > p + 1 {
                        lemma_lex_transitive(key@, ks[p as int], ks[h - 1]);
                    }
                } else {
                }
            }
            assert forall|j: int| 0 <= j < new_sv.len() implies #[trigger] in_some_group(ms2, j) by {
                if j < i {
                    assert(in_some_group(ms, j));
                    let g = choose|g: int| 0 <= g < ms.len() && #[trigger] ms[g].contains(j as usize);
                    if g < p {
                        assert(ms2[g].contains(j as usize));
                    } else {
                        assert(ms2[g + 1] == ms[g]);
                        assert(ms2[g + 1].contains(j as usize));
                    }
                } else {
                    assert(ms2[p as int] == seq![i]);
                    assert(ms2[p as int][0] == i);
                    assert(ms2[p as int].contains(j as usize));
                }
            }
            assert forall|g: int| 0 <= g < keys.len() implies #[trigger] keys@[g]@ == names@[g]@ by {
                if g < p {
                } else if g == p {
                } else {
                }
            }
            assert(is_symbol_grouping(new_sv, ks2, ms2));
        }
        i += 1;
    }
    assert(sv.take(n as int) =~= sv);
    let ghost ks = Seq::new(keys.len() as nat, |g: int| keys@[g]@);
    let ghost ms = Seq::new(members.len() as nat, |g: int| members@[g]@);
    let mut groups: Vec<SymbolGroup> = Vec::new();
    let mut names = names;
    let mut members = members;
    let ghost names0 = names@;
    let ghost members0 = members@;
    while names.len() > 0
        invariant
            names.len() == members.len(),
            names.len() + groups.len() == names0.len(),
            names0.len() == members0.len(),
            forall|g: int| 0 <= g < names.len() ==> names@[g] == names0[g],
            forall|g: int| 0 <= g < members.len() ==> members@[g] == members0[g],
            forall|g: int|
                0 <= g < groups.len() ==> (#[trigger] groups@[g]).symbol == names0[g + names.len()]
                    && groups@[g].members == members0[g + names.len()],
        decreases names.len(),
    {
        let s = names.pop().unwrap();
        let m = members.pop().unwrap();
        groups.insert(0, SymbolGroup { symbol: s, members: m });
    }
    assert(group_keys(groups@) =~= ks);
    assert(group_members(groups@) =~= ms);
    groups
}

} // verus!
