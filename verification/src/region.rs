//! The regions of the data set with their codes, the sorted listing shown to the
//! user, and the reading of the user's choice of regions.

use itertools::Itertools;
use vstd::prelude::*;
use vstd::seq_lib::to_multiset_contains;
use crate::record::Row;
use crate::text::{
    compare_text, lemma_lex_antisymmetric, lemma_lex_transitive, lemma_lex_zero,
    lemma_split_commas_nonempty, lex_order, lowercase_text,
    split_commas, split_on_commas, texts, to_lowercase, trim, trimmed,
};

verus! {

/// A region with its code.
pub struct RegionEntry {
    pub region: String,
    pub code: String,
}

/// The views of region entries: pairs of region and code.
pub open spec fn entry_views(v: Seq<RegionEntry>) -> Seq<(Seq<char>, Seq<char>)> {
    v.map_values(|e: RegionEntry| (e.region@, e.code@))
}

/// The regions of the data set, each with the code of its first record, in the
/// order in which the regions first appear.
pub struct RegionDict {
    entries: Vec<RegionEntry>,
}

impl View for RegionDict {
    type V = Seq<(Seq<char>, Seq<char>)>;

    closed spec fn view(&self) -> Self::V {
        entry_views(self.entries@)
    }
}

impl RegionDict {
    /// No region is listed twice.
    #[verifier::type_invariant]
    spec fn regions_are_distinct(self) -> bool {
        distinct_regions(entry_views(self.entries@))
    }

    /// The number of listed regions.
    pub fn len(&self) -> (n: usize)
        ensures
            n == self@.len(),
    {
        self.entries.len()
    }

    /// The listed regions with their codes, in order.
    pub fn entries(&self) -> (r: &Vec<RegionEntry>)
        ensures
            entry_views(r@) == self@,
            distinct_regions(self@),
    {
        proof {
            use_type_invariant(self);
        }
        &self.entries
    }
}

/// Whether a region of that name is listed.
pub open spec fn has_region(d: Seq<(Seq<char>, Seq<char>)>, name: Seq<char>) -> bool {
    exists|i: int| 0 <= i < d.len() && (#[trigger] d[i]).0 == name
}

/// No region is listed twice.
pub open spec fn distinct_regions(d: Seq<(Seq<char>, Seq<char>)>) -> bool {
    forall|i: int, j: int| #![trigger d[i], d[j]] 0 <= i < j < d.len() ==> d[i].0 != d[j].0
}

/// The names of the listed regions, in order.
pub open spec fn region_names(d: Seq<(Seq<char>, Seq<char>)>) -> Seq<Seq<char>> {
    d.map_values(|e: (Seq<char>, Seq<char>)| e.0)
}

/// The regions of a sequence of rows: each region once, in the order of its first
/// row, with the code of that first row.
pub open spec fn region_entries(rows: Seq<Row>) -> Seq<(Seq<char>, Seq<char>)>
    decreases rows.len(),
{
    if rows.len() == 0 {
        Seq::empty()
    } else {
        let prev = region_entries(rows.drop_last());
        let last = rows.last();
        if has_region(prev, last.region@) {
            prev
        } else {
            prev.push((last.region@, last.code@))
        }
    }
}

/// The code listed for a region, if the region is listed.
pub open spec fn code_of(d: Seq<(Seq<char>, Seq<char>)>, name: Seq<char>) -> Option<Seq<char>>
    decreases d.len(),
{
    if d.len() == 0 {
        None
    } else {
        match code_of(d.drop_last(), name) {
            Some(c) => Some(c),
            None => if d.last().0 == name {
                Some(d.last().1)
            } else {
                None
            },
        }
    }
}

/// The first listed region with the given code, if any.
pub open spec fn region_with_code(d: Seq<(Seq<char>, Seq<char>)>, code: Seq<char>) -> Option<
    Seq<char>,
>
    decreases d.len(),
{
    if d.len() == 0 {
        None
    } else {
        match region_with_code(d.drop_last(), code) {
            Some(r) => Some(r),
            None => if d.last().1 == code {
                Some(d.last().0)
            } else {
                None
            },
        }
    }
}

/// A region's code is found exactly when the region is listed.
pub proof fn lemma_code_of_listed(d: Seq<(Seq<char>, Seq<char>)>, name: Seq<char>)
    ensures
        code_of(d, name) is Some <==> has_region(d, name),
    decreases d.len(),
{
    if d.len() > 0 {
        lemma_code_of_listed(d.drop_last(), name);
        if has_region(d.drop_last(), name) {
            let i = choose|i: int| 0 <= i < d.drop_last().len() && (#[trigger] d.drop_last()[i]).0
                == name;
            assert(d[i] == d.drop_last()[i]);
        }
        if has_region(d, name) {
            let i = choose|i: int| 0 <= i < d.len() && (#[trigger] d[i]).0 == name;
            if i < d.len() - 1 {
                assert(d.drop_last()[i] == d[i]);
            }
        }
        if d.last().0 == name {
            assert(d[d.len() - 1].0 == name);
        }
    }
}

fn find_region(entries: &Vec<RegionEntry>, name: &String) -> (r: bool)
    ensures
        r == has_region(entry_views(entries@), name@),
{
    let ghost d = entry_views(entries@);
    let mut i: usize = 0;
    while i < entries.len()
        invariant
            i <= entries.len(),
            d == entry_views(entries@),
            forall|k: int| 0 <= k < i ==> d[k].0 != name@,
        decreases entries.len() - i,
    {
        if entries[i].region == *name {
            assert(d[i as int].0 == name@);
            return true;
        }
        i = i + 1;
    }
    false
}

fn code_for(entries: &Vec<RegionEntry>, name: &String) -> (r: Option<String>)
    ensures
        match r {
            Some(c) => code_of(entry_views(entries@), name@) == Some(c@),
            None => code_of(entry_views(entries@), name@) is None,
        },
{
    let ghost d = entry_views(entries@);
    let mut found: Option<String> = None;
    let mut i: usize = 0;
    assert(d.take(0) =~= Seq::<(Seq<char>, Seq<char>)>::empty());
    while i < entries.len()
        invariant
            i <= entries.len(),
            d == entry_views(entries@),
            match found {
                Some(c) => code_of(d.take(i as int), name@) == Some(c@),
                None => code_of(d.take(i as int), name@) is None,
            },
        decreases entries.len() - i,
    {
        assert(d.take(i + 1).drop_last() =~= d.take(i as int));
        if found.is_none() && entries[i].region == *name {
            found = Some(entries[i].code.clone());
        }
        i = i + 1;
    }
    assert(d.take(entries.len() as int) =~= d);
    found
}

fn region_for_code(entries: &Vec<RegionEntry>, code: &String) -> (r: Option<String>)
    ensures
        match r {
            Some(c) => region_with_code(entry_views(entries@), code@) == Some(c@),
            None => region_with_code(entry_views(entries@), code@) is None,
        },
{
    let ghost d = entry_views(entries@);
    let mut found: Option<String> = None;
    let mut i: usize = 0;
    assert(d.take(0) =~= Seq::<(Seq<char>, Seq<char>)>::empty());
    while i < entries.len()
        invariant
            i <= entries.len(),
            d == entry_views(entries@),
            match found {
                Some(c) => region_with_code(d.take(i as int), code@) == Some(c@),
                None => region_with_code(d.take(i as int), code@) is None,
            },
        decreases entries.len() - i,
    {
        assert(d.take(i + 1).drop_last() =~= d.take(i as int));
        if found.is_none() && entries[i].code == *code {
            found = Some(entries[i].region.clone());
        }
        i = i + 1;
    }
    assert(d.take(entries.len() as int) =~= d);
    found
}

/// Lists the regions of the rows: each region once, in the order of its first
/// row, with the code of that first row.
pub fn create_region_dict(life_list: Vec<Row>) -> (region_dict: RegionDict)
    ensures
        region_dict@ == region_entries(life_list@),
        distinct_regions(region_dict@),
{
    let mut entries: Vec<RegionEntry> = Vec::new();
    let mut i: usize = 0;
    assert(life_list@.take(0) =~= Seq::<Row>::empty());
    assert(entry_views(entries@) =~= Seq::<(Seq<char>, Seq<char>)>::empty());
    while i < life_list.len()
        invariant
            i <= life_list.len(),
            entry_views(entries@) == region_entries(life_list@.take(i as int)),
            distinct_regions(entry_views(entries@)),
        decreases life_list.len() - i,
    {
        let row: &Row = &life_list[i];
        proof {
            assert(life_list@.take(i + 1).drop_last() =~= life_list@.take(i as int));
            assert(life_list@.take(i + 1).last() == *row);
        }
        if !find_region(&entries, &row.region) {
            let ghost before = entry_views(entries@);
            entries.push(RegionEntry { region: row.region.clone(), code: row.code.clone() });
            proof {
                let after = entry_views(entries@);
                assert(after =~= before.push((row.region@, row.code@)));
                assert forall|a: int, b: int| #![trigger after[a], after[b]]
                    0 <= a < b < after.len() implies after[a].0 != after[b].0 by {
                    if b == after.len() - 1 {
                        assert(before[a] == after[a]);
                    } else {
                        assert(before[a] == after[a]);
                        assert(before[b] == after[b]);
                    }
                }
            }
        }
        i = i + 1;
    }
    assert(life_list@.take(life_list.len() as int) =~= life_list@);
    RegionDict { entries }
}

/// Sorts names with `Itertools::sorted` and collects them. The result holds the
/// same names, in the ascending order of `Ord for String`, which is the
/// lexicographic order of code points (`lex_order`).
#[verifier::external_body]
fn sorted_names(names: Vec<String>) -> (r: Vec<String>)
    ensures
        texts(r@).to_multiset() == texts(names@).to_multiset(),
        forall|i: int, j: int| 0 <= i < j < r@.len() ==> lex_order(r@[i]@, r@[j]@) <= 0,
{
    names.into_iter().sorted().collect()
}

/// The regions in alphabetical order, each with its code, for the user to choose from.
pub fn region_listing(region_dict: &RegionDict) -> (listing: Vec<RegionEntry>)
    ensures
        texts(listing@.map_values(|e: RegionEntry| e.region)).to_multiset() == region_names(
            region_dict@,
        ).to_multiset(),
        forall|i: int, j: int|
            0 <= i < j < listing@.len() ==> lex_order(listing@[i].region@, listing@[j].region@)
                <= 0,
        forall|i: int|
            0 <= i < listing@.len() ==> code_of(region_dict@, (#[trigger] listing@[i]).region@)
                == Some(listing@[i].code@),
{
    let entries = &region_dict.entries;
    let ghost d = entry_views(entries@);
    let mut names: Vec<String> = Vec::new();
    let mut i: usize = 0;
    while i < entries.len()
        invariant
            i <= entries.len(),
            d == entry_views(entries@),
            texts(names@) == region_names(d).take(i as int),
        decreases entries.len() - i,
    {
        let ghost before = names@;
        let name: String = entries[i].region.clone();
        names.push(name);
        proof {
            assert(texts(names@) =~= texts(before).push(name@));
            assert(d[i as int].0 == name@);
            assert(region_names(d).take(i + 1) =~= region_names(d).take(i as int).push(name@));
        }
        i = i + 1;
    }
    assert(region_names(d).take(entries.len() as int) =~= region_names(d));
    let sorted: Vec<String> = sorted_names(names);
    let mut listing: Vec<RegionEntry> = Vec::new();
    let mut k: usize = 0;
    while k < sorted.len()
        invariant
            k <= sorted.len(),
            d == entry_views(entries@),
            d == region_dict@,
            texts(sorted@).to_multiset() == region_names(d).to_multiset(),
            listing@.len() == k,
            forall|m: int| 0 <= m < k ==> (#[trigger] listing@[m]).region@ == sorted@[m]@,
            forall|m: int|
                0 <= m < k ==> code_of(d, (#[trigger] listing@[m]).region@) == Some(
                    listing@[m].code@,
                ),
        decreases sorted.len() - k,
    {
        let name: &String = &sorted[k];
        proof {
            assert(texts(sorted@)[k as int] == name@);
            to_multiset_contains(texts(sorted@), name@);
            to_multiset_contains(region_names(d), name@);
            let j = choose|j: int| 0 <= j < region_names(d).len() && region_names(d)[j] == name@;
            assert(d[j].0 == name@);
            lemma_code_of_listed(d, name@);
        }
        match code_for(entries, name) {
            Some(code) => {
                listing.push(RegionEntry { region: name.clone(), code });
            },
            None => {
                proof {
                    assert(false);
                }
            },
        }
        k = k + 1;
    }
    proof {
        assert(texts(listing@.map_values(|e: RegionEntry| e.region)) =~= texts(sorted@));
    }
    listing
}

/// A piece of the user's answer as it is compared: trimmed and in lower case.
pub open spec fn clean_token(p: Seq<char>) -> Seq<char> {
    lowercase_text(trimmed(p))
}

/// The pieces of the user's answer between commas, trimmed and lower-cased.
pub open spec fn input_pieces(line: Seq<char>) -> Seq<Seq<char>> {
    split_commas(line).map_values(|p: Seq<char>| clean_token(p))
}

/// Each text comes before the next in `lex_order`: the texts are sorted and none
/// occurs twice.
pub open spec fn strictly_sorted(s: Seq<Seq<char>>) -> bool {
    forall|i: int, j: int| #![trigger s[i], s[j]] 0 <= i < j < s.len() ==> lex_order(s[i], s[j]) < 0
}

/// The tokens of the user's answer: its cleaned pieces, sorted, each once.
pub open spec fn are_input_tokens(line: Seq<char>, tokens: Seq<Seq<char>>) -> bool {
    &&& strictly_sorted(tokens)
    &&& forall|t: Seq<char>| #[trigger] tokens.contains(t) <==> input_pieces(line).contains(t)
}

/// Two texts in strict order, the second before a third, put the first before the third.
pub proof fn lemma_lex_strict_transitive(a: Seq<char>, b: Seq<char>, c: Seq<char>)
    requires
        lex_order(a, b) < 0,
        lex_order(b, c) < 0,
    ensures
        lex_order(a, c) < 0,
{
    lemma_lex_transitive(a, b, c);
    lemma_lex_zero(a, c);
    if lex_order(a, c) == 0 {
        lemma_lex_antisymmetric(b, c);
    }
}

/// The sorted tokens of an answer are fully determined by its pieces: two sorted
/// sequences without repeats that hold the same texts are equal.
pub proof fn sorted_tokens_are_unique(s1: Seq<Seq<char>>, s2: Seq<Seq<char>>)
    requires
        strictly_sorted(s1),
        strictly_sorted(s2),
        forall|t: Seq<char>| #[trigger] s1.contains(t) <==> s2.contains(t),
    ensures
        s1 == s2,
    decreases s1.len() + s2.len(),
{
    if s1.len() == 0 || s2.len() == 0 {
        if s1.len() > 0 {
            assert(s1.contains(s1[0]));
            assert(s2.contains(s1[0]));
        } else if s2.len() > 0 {
            assert(s2.contains(s2[0]));
            assert(s1.contains(s2[0]));
        } else {
            assert(s1 =~= s2);
        }
    } else {
        let x = s1[0];
        let y = s2[0];
        assert(s1.contains(x));
        assert(s2.contains(y));
        assert(s2.contains(x));
        assert(s1.contains(y));
        let p = choose|p: int| 0 <= p < s2.len() && s2[p] == x;
        let q = choose|q: int| 0 <= q < s1.len() && s1[q] == y;
        lemma_lex_zero(x, y);
        lemma_lex_antisymmetric(x, y);
        if x != y {
            if p > 0 && q > 0 {
                assert(lex_order(s2[0], s2[p]) < 0);
                assert(lex_order(s1[0], s1[q]) < 0);
            } else if p == 0 {
                assert(s2[0] == x);
            } else {
                assert(s1[0] == y);
            }
        }
        assert(x == y);
        let t1 = s1.drop_first();
        let t2 = s2.drop_first();
        assert forall|t: Seq<char>| #[trigger] t1.contains(t) <==> t2.contains(t) by {
            if t1.contains(t) {
                let i = choose|i: int| 0 <= i < t1.len() && t1[i] == t;
                assert(s1[i + 1] == t);
                assert(lex_order(s1[0], s1[i + 1]) < 0);
                lemma_lex_zero(x, t);
                assert(s1.contains(t));
                assert(s2.contains(t));
                let k = choose|k: int| 0 <= k < s2.len() && s2[k] == t;
                assert(k != 0);
                assert(t2[k - 1] == t);
            }
            if t2.contains(t) {
                let i = choose|i: int| 0 <= i < t2.len() && t2[i] == t;
                assert(s2[i + 1] == t);
                assert(lex_order(s2[0], s2[i + 1]) < 0);
                lemma_lex_zero(y, t);
                assert(s2.contains(t));
                assert(s1.contains(t));
                let k = choose|k: int| 0 <= k < s1.len() && s1[k] == t;
                assert(k != 0);
                assert(t1[k - 1] == t);
            }
        }
        assert(strictly_sorted(t1)) by {
            assert forall|i: int, j: int| #![trigger t1[i], t1[j]] 0 <= i < j < t1.len() implies lex_order(
                t1[i],
                t1[j],
            ) < 0 by {
                assert(t1[i] == s1[i + 1] && t1[j] == s1[j + 1]);
            }
        }
        assert(strictly_sorted(t2)) by {
            assert forall|i: int, j: int| #![trigger t2[i], t2[j]] 0 <= i < j < t2.len() implies lex_order(
                t2[i],
                t2[j],
            ) < 0 by {
                assert(t2[i] == s2[i + 1] && t2[j] == s2[j + 1]);
            }
        }
        sorted_tokens_are_unique(t1, t2);
        assert(s1 =~= seq![x] + t1);
        assert(s2 =~= seq![y] + t2);
    }
}

/// Cuts the user's answer into tokens.
pub fn region_tokens(line: &str) -> (tokens: Vec<String>)
    ensures
        are_input_tokens(line@, texts(tokens@)),
        tokens@.len() >= 1,
{
    let pieces: Vec<String> = split_on_commas(line);
    let ghost split = split_commas(line@);
    let ghost clean = split.map_values(|p: Seq<char>| clean_token(p));
    let mut cleaned: Vec<String> = Vec::new();
    let mut i: usize = 0;
    while i < pieces.len()
        invariant
            i <= pieces.len(),
            texts(pieces@) == split,
            clean == split.map_values(|p: Seq<char>| clean_token(p)),
            texts(cleaned@) == clean.take(i as int),
        decreases pieces.len() - i,
    {
        let trimmed_piece: String = trim(pieces[i].as_str());
        let token: String = to_lowercase(trimmed_piece.as_str());
        let ghost before = cleaned@;
        cleaned.push(token);
        proof {
            assert(split[i as int] == pieces@[i as int]@);
            assert(token@ == clean[i as int]);
            assert(texts(cleaned@) =~= texts(before).push(token@));
            assert(texts(cleaned@) =~= clean.take(i + 1));
        }
        i = i + 1;
    }
    assert(clean.take(pieces.len() as int) =~= clean);
    let sorted: Vec<String> = sorted_names(cleaned);
    let ghost ss = texts(sorted@);
    let mut tokens: Vec<String> = Vec::new();
    let mut k: usize = 0;
    assert(ss.take(0) =~= Seq::<Seq<char>>::empty());
    while k < sorted.len()
        invariant
            k <= sorted.len(),
            ss == texts(sorted@),
            forall|i: int, j: int| 0 <= i < j < sorted@.len() ==> lex_order(sorted@[i]@, sorted@[j]@) <= 0,
            strictly_sorted(texts(tokens@)),
            forall|t: Seq<char>| #[trigger] texts(tokens@).contains(t) <==> ss.take(k as int).contains(t),
            k > 0 ==> tokens@.len() > 0 && tokens@[tokens@.len() - 1]@ == ss[k - 1],
            k == 0 ==> tokens@.len() == 0,
        decreases sorted.len() - k,
    {
        let keep: bool = k == 0 || !(sorted[k] == sorted[k - 1]);
        let ghost before = texts(tokens@);
        proof {
            assert(ss.take(k + 1) =~= ss.take(k as int).push(ss[k as int]));
            assert(ss[k as int] == sorted@[k as int]@);
            if k > 0 {
                assert(ss[k - 1] == sorted@[k - 1]@);
            }
        }
        if keep {
            let token: String = sorted[k].clone();
            tokens.push(token);
            proof {
                let now = texts(tokens@);
                assert(now =~= before.push(token@));
                if k > 0 {
                    let last = ss[k - 1];
                    assert(lex_order(last, token@) <= 0);
                    lemma_lex_zero(last, token@);
                    assert(before[before.len() - 1] == last);
                    assert forall|i: int, j: int| #![trigger now[i], now[j]] 0 <= i < j < now.len() implies lex_order(
                        now[i],
                        now[j],
                    ) < 0 by {
                        if j == now.len() - 1 {
                            if i < before.len() - 1 {
                                lemma_lex_strict_transitive(before[i], last, token@);
                            }
                        } else {
                            assert(now[i] == before[i] && now[j] == before[j]);
                        }
                    }
                }
                assert forall|t: Seq<char>| #[trigger] now.contains(t) <==> ss.take(k + 1).contains(t) by {
                    if now.contains(t) && t != token@ {
                        let i = choose|i: int| 0 <= i < now.len() && now[i] == t;
                        assert(before[i] == t);
                        assert(before.contains(t));
                    }
                    if ss.take(k + 1).contains(t) && t != token@ {
                        let i = choose|i: int| 0 <= i < k + 1 && #[trigger] ss.take(k + 1)[i] == t;
                        assert(ss.take(k as int)[i] == t);
                        assert(ss.take(k as int).contains(t));
                        assert(before.contains(t));
                        let m = choose|m: int| 0 <= m < before.len() && before[m] == t;
                        assert(now[m] == t);
                    }
                    if t == token@ {
                        assert(now[now.len() - 1] == t);
                        assert(ss.take(k + 1)[k as int] == t);
                    }
                }
            }
        } else {
            proof {
                assert(texts(tokens@) =~= before);
                assert forall|t: Seq<char>| #[trigger] before.contains(t) <==> ss.take(k + 1).contains(t) by {
                    if ss.take(k + 1).contains(t) {
                        let i = choose|i: int| 0 <= i < k + 1 && #[trigger] ss.take(k + 1)[i] == t;
                        if i == k {
                            assert(before[before.len() - 1] == t);
                        } else {
                            assert(ss.take(k as int)[i] == t);
                            assert(ss.take(k as int).contains(t));
                        }
                    }
                    if before.contains(t) {
                        assert(ss.take(k as int).contains(t));
                        let i = choose|i: int| 0 <= i < k && #[trigger] ss.take(k as int)[i] == t;
                        assert(ss.take(k + 1)[i] == t);
                    }
                }
            }
        }
        k = k + 1;
    }
    proof {
        assert(ss.take(sorted.len() as int) =~= ss);
        lemma_split_commas_nonempty(line@);
        assert forall|t: Seq<char>| #[trigger] texts(tokens@).contains(t) <==> input_pieces(line@).contains(t) by {
            to_multiset_contains(ss, t);
            to_multiset_contains(clean, t);
        }
        assert(clean.contains(clean[0]));
        assert(texts(tokens@).contains(clean[0]));
    }
    tokens
}

/// The names of continents and other groups of countries that the data set holds
/// beside the countries.
pub open spec fn geographic_regions() -> Seq<Seq<char>> {
    seq![
        "oceania"@,
        "americas"@,
        "northern america"@,
        "asia"@,
        "europe"@,
        "world"@,
        "latin america and the caribbean"@,
        "africa"@,
    ]
}

/// Whether a region is a continent or another group of countries.
pub fn is_geographic(name: &str) -> (r: bool)
    ensures
        r == geographic_regions().contains(name@),
        r == (name@ == "oceania"@ || name@ == "americas"@ || name@ == "northern america"@ || name@
            == "asia"@ || name@ == "europe"@ || name@ == "world"@ || name@
            == "latin america and the caribbean"@ || name@ == "africa"@),
{
    let b0: bool = compare_text(name, "oceania") == 0;
    let b1: bool = compare_text(name, "americas") == 0;
    let b2: bool = compare_text(name, "northern america") == 0;
    let b3: bool = compare_text(name, "asia") == 0;
    let b4: bool = compare_text(name, "europe") == 0;
    let b5: bool = compare_text(name, "world") == 0;
    let b6: bool = compare_text(name, "latin america and the caribbean") == 0;
    let b7: bool = compare_text(name, "africa") == 0;
    let ghost g = geographic_regions();
    proof {
        lemma_lex_zero(name@, g[0]);
        lemma_lex_zero(name@, g[1]);
        lemma_lex_zero(name@, g[2]);
        lemma_lex_zero(name@, g[3]);
        lemma_lex_zero(name@, g[4]);
        lemma_lex_zero(name@, g[5]);
        lemma_lex_zero(name@, g[6]);
        lemma_lex_zero(name@, g[7]);
        if g.contains(name@) {
            let i = choose|i: int| 0 <= i < g.len() && g[i] == name@;
            assert(i == 0 || i == 1 || i == 2 || i == 3 || i == 4 || i == 5 || i == 6 || i == 7);
        }
        if b0 {
            assert(g[0] == name@);
        }
        if b1 {
            assert(g[1] == name@);
        }
        if b2 {
            assert(g[2] == name@);
        }
        if b3 {
            assert(g[3] == name@);
        }
        if b4 {
            assert(g[4] == name@);
        }
        if b5 {
            assert(g[5] == name@);
        }
        if b6 {
            assert(g[6] == name@);
        }
        if b7 {
            assert(g[7] == name@);
        }
    }
    b0 || b1 || b2 || b3 || b4 || b5 || b6 || b7
}

/// COUNTRIES leaves out exactly the eight groups of countries: oceania, americas,
/// northern america, asia, europe, world, latin america and the caribbean, and
/// africa; every other region is a country.
pub proof fn countries_exclude_groups(name: Seq<char>)
    ensures
        !is_country()("oceania"@),
        !is_country()("americas"@),
        !is_country()("northern america"@),
        !is_country()("asia"@),
        !is_country()("europe"@),
        !is_country()("world"@),
        !is_country()("latin america and the caribbean"@),
        !is_country()("africa"@),
        is_country()(name) <==> !(name == "oceania"@ || name == "americas"@ || name
            == "northern america"@ || name == "asia"@ || name == "europe"@ || name == "world"@
            || name == "latin america and the caribbean"@ || name == "africa"@),
{
    let g = geographic_regions();
    assert(g[0] == "oceania"@ && g.contains(g[0]));
    assert(g[1] == "americas"@ && g.contains(g[1]));
    assert(g[2] == "northern america"@ && g.contains(g[2]));
    assert(g[3] == "asia"@ && g.contains(g[3]));
    assert(g[4] == "europe"@ && g.contains(g[4]));
    assert(g[5] == "world"@ && g.contains(g[5]));
    assert(g[6] == "latin america and the caribbean"@ && g.contains(g[6]));
    assert(g[7] == "africa"@ && g.contains(g[7]));
    if g.contains(name) {
        let i = choose|i: int| 0 <= i < g.len() && g[i] == name;
        assert(i == 0 || i == 1 || i == 2 || i == 3 || i == 4 || i == 5 || i == 6 || i == 7);
    }
}

/// What a token names: the first region with that code, or else the region of
/// that name, or nothing.
pub open spec fn resolve_token(d: Seq<(Seq<char>, Seq<char>)>, t: Seq<char>) -> Option<Seq<char>> {
    match region_with_code(d, t) {
        Some(r) => Some(r),
        None => if has_region(d, t) {
            Some(t)
        } else {
            None
        },
    }
}

/// `resolve_token` as a function of the token.
pub open spec fn resolve_in(d: Seq<(Seq<char>, Seq<char>)>) -> spec_fn(Seq<char>) -> Option<
    Seq<char>,
> {
    |t: Seq<char>| resolve_token(d, t)
}

/// The tokens that name nothing.
pub open spec fn unknown_in(d: Seq<(Seq<char>, Seq<char>)>) -> spec_fn(Seq<char>) -> bool {
    |t: Seq<char>| resolve_token(d, t) is None
}

/// The regions that are not continents or other groups of countries.
pub open spec fn is_country() -> spec_fn(Seq<char>) -> bool {
    |r: Seq<char>| !geographic_regions().contains(r)
}

/// What the user's tokens choose. `all` stands for every region; a first token
/// `countries` chooses every region that is not a continent or another group of
/// countries; otherwise each token chooses the region it names, and the choice
/// fails, with the tokens that name nothing, when some token names nothing or no
/// region is chosen.
pub open spec fn region_choice(d: Seq<(Seq<char>, Seq<char>)>, tokens: Seq<Seq<char>>) -> Result<
    Seq<Seq<char>>,
    Seq<Seq<char>>,
> {
    let toks = if tokens[0] == "all"@ {
        region_names(d)
    } else {
        tokens
    };
    if toks[0] == "countries"@ {
        let countries = region_names(d).filter(is_country());
        if countries.len() > 0 {
            Ok(countries)
        } else {
            Err(Seq::empty())
        }
    } else {
        let found = toks.filter_map(resolve_in(d));
        let unknown = toks.filter(unknown_in(d));
        if found.len() > 0 && unknown.len() == 0 {
            Ok(found)
        } else {
            Err(unknown)
        }
    }
}

fn resolve(entries: &Vec<RegionEntry>, token: &String) -> (r: Option<String>)
    ensures
        match r {
            Some(name) => resolve_token(entry_views(entries@), token@) == Some(name@),
            None => resolve_token(entry_views(entries@), token@) is None,
        },
{
    match region_for_code(entries, token) {
        Some(region) => Some(region),
        None => if find_region(entries, token) {
            Some(token.clone())
        } else {
            None
        },
    }
}

fn all_region_names(entries: &Vec<RegionEntry>) -> (names: Vec<String>)
    ensures
        texts(names@) == region_names(entry_views(entries@)),
{
    let ghost d = entry_views(entries@);
    let mut names: Vec<String> = Vec::new();
    let mut i: usize = 0;
    while i < entries.len()
        invariant
            i <= entries.len(),
            d == entry_views(entries@),
            texts(names@) == region_names(d).take(i as int),
        decreases entries.len() - i,
    {
        let name: String = entries[i].region.clone();
        let ghost before = names@;
        names.push(name);
        proof {
            assert(texts(names@) =~= texts(before).push(name@));
            assert(d[i as int].0 == name@);
            assert(region_names(d).take(i + 1) =~= region_names(d).take(i as int).push(name@));
        }
        i = i + 1;
    }
    assert(region_names(d).take(entries.len() as int) =~= region_names(d));
    names
}

/// Decides which regions the user's tokens choose, or which tokens name nothing.
pub fn resolve_region_tokens(region_dict: &RegionDict, tokens: Vec<String>) -> (r: Result<
    Vec<String>,
    Vec<String>,
>)
    requires
        tokens@.len() >= 1,
        tokens@[0]@ == "all"@ ==> region_dict@.len() >= 1,
    ensures
        match r {
            Ok(chosen) => region_choice(region_dict@, texts(tokens@)) == Ok::<
                Seq<Seq<char>>,
                Seq<Seq<char>>,
            >(texts(chosen@)),
            Err(unknown) => region_choice(region_dict@, texts(tokens@)) == Err::<
                Seq<Seq<char>>,
                Seq<Seq<char>>,
            >(texts(unknown@)),
        },
{
    let entries = &region_dict.entries;
    let ghost d = entry_views(entries@);
    let ghost original = texts(tokens@);
    let is_all: bool = compare_text(tokens[0].as_str(), "all") == 0;
    proof {
        lemma_lex_zero(tokens@[0]@, "all"@);
        assert(original[0] == tokens@[0]@);
    }
    let toks: Vec<String> = if is_all {
        all_region_names(entries)
    } else {
        tokens
    };
    let ghost ts = texts(toks@);
    assert(ts.len() >= 1);
    let is_countries: bool = compare_text(toks[0].as_str(), "countries") == 0;
    proof {
        lemma_lex_zero(toks@[0]@, "countries"@);
        assert(ts[0] == toks@[0]@);
    }
    if is_countries {
        let mut countries: Vec<String> = Vec::new();
        let mut i: usize = 0;
        assert(region_names(d).take(0) =~= Seq::<Seq<char>>::empty());
        while i < entries.len()
            invariant
                i <= entries.len(),
                d == entry_views(entries@),
                texts(countries@) == region_names(d).take(i as int).filter(is_country()),
            decreases entries.len() - i,
        {
            let ghost name = entries@[i as int].region@;
            proof {
                assert(region_names(d)[i as int] == name);
                assert(region_names(d).take(i + 1) =~= region_names(d).take(i as int).push(name));
                region_names(d).take(i as int).lemma_filter_push(name, is_country());
            }
            if !is_geographic(entries[i].region.as_str()) {
                let region: String = entries[i].region.clone();
                let ghost before = countries@;
                countries.push(region);
                assert(texts(countries@) =~= texts(before).push(region@));
            }
            i = i + 1;
        }
        assert(region_names(d).take(entries.len() as int) =~= region_names(d));
        if countries.len() > 0 {
            Ok(countries)
        } else {
            let none: Vec<String> = Vec::new();
            assert(texts(none@) =~= Seq::<Seq<char>>::empty());
            Err(none)
        }
    } else {
        let mut found: Vec<String> = Vec::new();
        let mut unknown: Vec<String> = Vec::new();
        let mut i: usize = 0;
        assert(ts.take(0) =~= Seq::<Seq<char>>::empty());
        while i < toks.len()
            invariant
                i <= toks.len(),
                d == entry_views(entries@),
                ts == texts(toks@),
                texts(found@) == ts.take(i as int).filter_map(resolve_in(d)),
                texts(unknown@) == ts.take(i as int).filter(unknown_in(d)),
            decreases toks.len() - i,
        {
            let token: &String = &toks[i];
            proof {
                assert(ts[i as int] == token@);
                ts.lemma_filter_map_take_succ(resolve_in(d), i as int);
                assert(ts.take(i + 1) =~= ts.take(i as int).push(token@));
                ts.take(i as int).lemma_filter_push(token@, unknown_in(d));
            }
            match resolve(entries, token) {
                Some(region) => {
                    let ghost before = found@;
                    found.push(region);
                    assert(texts(found@) =~= texts(before) + seq![region@]);
                },
                None => {
                    let copy: String = token.clone();
                    let ghost before = unknown@;
                    unknown.push(copy);
                    assert(texts(unknown@) =~= texts(before).push(copy@));
                },
            }
            i = i + 1;
        }
        assert(ts.take(toks.len() as int) =~= ts);
        if found.len() > 0 && unknown.len() == 0 {
            Ok(found)
        } else {
            Err(unknown)
        }
    }
}

/// The region list of a data set names every region of its rows and nothing
/// else: each row's region is listed, and each listed region comes with the code
/// of the first row of that region.
pub proof fn region_entries_cover_rows(rows: Seq<Row>)
    ensures
        forall|i: int|
            0 <= i < rows.len() ==> has_region(region_entries(rows), (#[trigger] rows[i]).region@),
        forall|k: int|
            #![trigger region_entries(rows)[k]]
            0 <= k < region_entries(rows).len() ==> exists|i: int|
                #![trigger rows[i]]
                0 <= i < rows.len() && rows[i].region@ == region_entries(rows)[k].0
                    && rows[i].code@ == region_entries(rows)[k].1 && forall|j: int|
                    0 <= j < i ==> (#[trigger] rows[j]).region@ != rows[i].region@,
    decreases rows.len(),
{
    if rows.len() > 0 {
        let init = rows.drop_last();
        let last = rows.last();
        let n = rows.len() - 1;
        region_entries_cover_rows(init);
        let prev = region_entries(init);
        let now = region_entries(rows);
        assert forall|i: int| 0 <= i < rows.len() implies has_region(now, (#[trigger] rows[i]).region@) by {
            if i < n {
                assert(init[i] == rows[i]);
                let k = choose|k: int| 0 <= k < prev.len() && (#[trigger] prev[k]).0 == init[i].region@;
                assert(now[k] == prev[k]);
            } else {
                if !has_region(prev, last.region@) {
                    assert(now[prev.len() as int].0 == last.region@);
                }
            }
        }
        assert forall|k: int| #![trigger now[k]] 0 <= k < now.len() implies exists|i: int|
            #![trigger rows[i]]
            0 <= i < rows.len() && rows[i].region@ == now[k].0 && rows[i].code@ == now[k].1
                && forall|j: int| 0 <= j < i ==> (#[trigger] rows[j]).region@ != rows[i].region@ by {
            if k < prev.len() {
                assert(now[k] == prev[k]);
                let i = choose|i: int|
                    #![trigger init[i]]
                    0 <= i < init.len() && init[i].region@ == prev[k].0 && init[i].code@ == prev[k].1
                        && forall|j: int| 0 <= j < i ==> (#[trigger] init[j]).region@ != init[i].region@;
                assert(rows[i] == init[i]);
                assert forall|j: int| 0 <= j < i implies (#[trigger] rows[j]).region@ != rows[i].region@ by {
                    assert(rows[j] == init[j]);
                }
            } else {
                assert(!has_region(prev, last.region@));
                assert(now[k] == (last.region@, last.code@));
                assert(rows[n] == last);
                assert forall|j: int| 0 <= j < n implies (#[trigger] rows[j]).region@ != rows[n].region@ by {
                    assert(init[j] == rows[j]);
                    if rows[j].region@ == last.region@ {
                        assert(has_region(prev, init[j].region@));
                    }
                }
            }
        }
    }
}

proof fn lemma_region_with_code_listed(d: Seq<(Seq<char>, Seq<char>)>, code: Seq<char>)
    ensures
        region_with_code(d, code) matches Some(r) ==> has_region(d, r),
    decreases d.len(),
{
    if d.len() > 0 {
        lemma_region_with_code_listed(d.drop_last(), code);
        match region_with_code(d.drop_last(), code) {
            Some(r) => {
                let i = choose|i: int| 0 <= i < d.drop_last().len() && (#[trigger] d.drop_last()[i]).0 == r;
                assert(d[i] == d.drop_last()[i]);
            },
            None => {
                if d.last().1 == code {
                    assert(d[d.len() - 1].0 == d.last().0);
                }
            },
        }
    }
}

/// Whatever regions an answer chooses are listed, so every chosen region has rows.
pub proof fn chosen_regions_are_listed(d: Seq<(Seq<char>, Seq<char>)>, tokens: Seq<Seq<char>>)
    requires
        tokens.len() >= 1,
        tokens[0] == "all"@ ==> d.len() >= 1,
    ensures
        region_choice(d, tokens) matches Ok(chosen) ==> forall|k: int|
            0 <= k < chosen.len() ==> has_region(d, #[trigger] chosen[k]),
{
    let toks = if tokens[0] == "all"@ {
        region_names(d)
    } else {
        tokens
    };
    if let Ok(chosen) = region_choice(d, tokens) {
        assert forall|k: int| 0 <= k < chosen.len() implies has_region(d, #[trigger] chosen[k]) by {
            let x = chosen[k];
            assert(chosen.contains(x));
            if toks[0] == "countries"@ {
                region_names(d).lemma_filter_contains_rev(is_country(), x);
                let j = choose|j: int| 0 <= j < region_names(d).len() && region_names(d)[j] == x;
                assert(d[j].0 == x);
            } else {
                toks.lemma_filter_map_contains(resolve_in(d), x);
                let t = choose|t: Seq<char>| #[trigger] toks.contains(t) && resolve_in(d)(t) == Some(x);
                lemma_region_with_code_listed(d, t);
            }
        }
    }
}

/// The entries whose region is not listed in `first`.
pub open spec fn not_listed_in(first: Seq<(Seq<char>, Seq<char>)>) -> spec_fn((Seq<char>, Seq<char>)) -> bool {
    |e: (Seq<char>, Seq<char>)| !has_region(first, e.0)
}

proof fn lemma_has_region_add(e: Seq<(Seq<char>, Seq<char>)>, f: Seq<(Seq<char>, Seq<char>)>, x: Seq<char>)
    ensures
        has_region(e + f, x) <==> has_region(e, x) || has_region(f, x),
{
    let ef = e + f;
    if has_region(ef, x) {
        let i = choose|i: int| 0 <= i < ef.len() && (#[trigger] ef[i]).0 == x;
        if i < e.len() {
            assert(e[i] == ef[i]);
        } else {
            assert(f[i - e.len()] == ef[i]);
        }
    }
    if has_region(e, x) {
        let i = choose|i: int| 0 <= i < e.len() && (#[trigger] e[i]).0 == x;
        assert(ef[i] == e[i]);
    }
    if has_region(f, x) {
        let i = choose|i: int| 0 <= i < f.len() && (#[trigger] f[i]).0 == x;
        assert(ef[i + e.len()] == f[i]);
    }
}

proof fn lemma_has_region_filtered(
    e: Seq<(Seq<char>, Seq<char>)>,
    f: Seq<(Seq<char>, Seq<char>)>,
    x: Seq<char>,
)
    ensures
        has_region(f.filter(not_listed_in(e)), x) <==> has_region(f, x) && !has_region(e, x),
{
    broadcast use vstd::seq_lib::group_filter_ensures;

    let p = not_listed_in(e);
    let g = f.filter(p);
    if has_region(g, x) {
        let i = choose|i: int| 0 <= i < g.len() && (#[trigger] g[i]).0 == x;
        assert(p(g[i]));
        assert(g.contains(g[i]));
        f.lemma_filter_contains_rev(p, g[i]);
        let j = choose|j: int| 0 <= j < f.len() && f[j] == g[i];
        assert(f[j].0 == x);
    }
    if has_region(f, x) && !has_region(e, x) {
        let i = choose|i: int| 0 <= i < f.len() && (#[trigger] f[i]).0 == x;
        assert(p(f[i]));
        assert(g.contains(f[i]));
        let j = choose|j: int| 0 <= j < g.len() && g[j] == f[i];
        assert(g[j].0 == x);
    }
}

/// Listing the regions of two lists of rows one after the other gives the regions
/// of the first list, followed by the regions of the second list that the first
/// does not have, in the second list's order and with its codes.
pub proof fn region_entries_of_concatenation(a: Seq<Row>, b: Seq<Row>)
    ensures
        region_entries(a + b) == region_entries(a) + region_entries(b).filter(
            not_listed_in(region_entries(a)),
        ),
        region_entries(Seq::<Row>::empty()) == Seq::<(Seq<char>, Seq<char>)>::empty(),
    decreases b.len(),
{
    let e = region_entries(a);
    let p = not_listed_in(e);
    if b.len() == 0 {
        assert(a + b =~= a);
        reveal(Seq::filter);
        assert(region_entries(b).filter(p) =~= Seq::<(Seq<char>, Seq<char>)>::empty());
        assert(e + region_entries(b).filter(p) =~= e);
    } else {
        let init = b.drop_last();
        let r = b.last();
        region_entries_of_concatenation(a, init);
        assert((a + b).drop_last() =~= a + init);
        assert((a + b).last() == r);
        let bi = region_entries(init);
        let entry = (r.region@, r.code@);
        lemma_has_region_add(e, bi.filter(p), r.region@);
        lemma_has_region_filtered(e, bi, r.region@);
        if !has_region(bi, r.region@) {
            bi.lemma_filter_push(entry, p);
            if !has_region(e, r.region@) {
                assert(e + bi.filter(p).push(entry) =~= (e + bi.filter(p)).push(entry));
            }
        }
    }
}

proof fn lemma_region_with_code_exact(d: Seq<(Seq<char>, Seq<char>)>, code: Seq<char>)
    ensures
        region_with_code(d, code) is None <==> forall|j: int| 0 <= j < d.len() ==> (#[trigger] d[j]).1 != code,
        region_with_code(d, code) matches Some(r) ==> exists|j: int|
            0 <= j < d.len() && (#[trigger] d[j]).1 == code && d[j].0 == r,
    decreases d.len(),
{
    if d.len() > 0 {
        let init = d.drop_last();
        lemma_region_with_code_exact(init, code);
        assert forall|j: int| 0 <= j < init.len() implies #[trigger] init[j] == d[j] by {}
        match region_with_code(init, code) {
            Some(r) => {
                let j = choose|j: int| 0 <= j < init.len() && (#[trigger] init[j]).1 == code && init[j].0 == r;
                assert(d[j] == init[j]);
            },
            None => {
                if d.last().1 == code {
                    assert(d[d.len() - 1] == d.last());
                } else {
                    assert forall|j: int| 0 <= j < d.len() implies (#[trigger] d[j]).1 != code by {
                        if j < init.len() {
                            assert(init[j] == d[j]);
                        }
                    }
                }
            },
        }
    }
}

proof fn lemma_tokens_all_resolve(d: Seq<(Seq<char>, Seq<char>)>, toks: Seq<Seq<char>>)
    requires
        forall|k: int| 0 <= k < toks.len() ==> resolve_token(d, #[trigger] toks[k]) is Some,
    ensures
        toks.filter_map(resolve_in(d)).len() == toks.len(),
        forall|k: int|
            0 <= k < toks.len() ==> #[trigger] toks.filter_map(resolve_in(d))[k] == resolve_token(
                d,
                toks[k],
            )->0,
    decreases toks.len(),
{
    if toks.len() > 0 {
        let init = toks.drop_last();
        assert forall|k: int| 0 <= k < init.len() implies resolve_token(d, #[trigger] init[k]) is Some by {
            assert(init[k] == toks[k]);
        }
        lemma_tokens_all_resolve(d, init);
        let last = toks[toks.len() - 1];
        assert(resolve_token(d, last) is Some);
        let y = resolve_token(d, last)->0;
        assert(toks.filter_map(resolve_in(d)) == init.filter_map(resolve_in(d)) + seq![y]);
        assert forall|k: int| 0 <= k < toks.len() implies #[trigger] toks.filter_map(resolve_in(d))[k]
            == resolve_token(d, toks[k])->0 by {
            if k < init.len() {
                assert(init[k] == toks[k]);
                assert(init.filter_map(resolve_in(d))[k] == resolve_token(d, init[k])->0);
            }
        }
    }
}

/// An answer of region names and codes (neither `all` nor `countries`) is
/// accepted exactly when every token is the code or the name of a listed region.
/// Then it chooses one region for each token, in the order of the tokens: a region
/// whose code is the token, or, where no region has that code, the region named by
/// the token. Otherwise it is refused with exactly the tokens that are neither a
/// code nor a name.
pub proof fn named_regions_law(d: Seq<(Seq<char>, Seq<char>)>, tokens: Seq<Seq<char>>)
    requires
        tokens.len() >= 1,
        tokens[0] != "all"@,
        tokens[0] != "countries"@,
    ensures
        region_choice(d, tokens) is Ok <==> forall|t: Seq<char>|
            #[trigger] tokens.contains(t) ==> exists|j: int|
                0 <= j < d.len() && ((#[trigger] d[j]).1 == t || d[j].0 == t),
        region_choice(d, tokens) matches Ok(chosen) ==> chosen.len() == tokens.len() && forall|k: int|
            0 <= k < tokens.len() ==> ((#[trigger] chosen[k] == tokens[k] && has_region(d, tokens[k])
                && forall|j: int| 0 <= j < d.len() ==> (#[trigger] d[j]).1 != tokens[k]) || exists|j: int|
                0 <= j < d.len() && (#[trigger] d[j]).1 == tokens[k] && d[j].0 == chosen[k]),
        region_choice(d, tokens) matches Err(unknown) ==> forall|t: Seq<char>|
            #[trigger] unknown.contains(t) <==> tokens.contains(t) && forall|j: int|
                0 <= j < d.len() ==> (#[trigger] d[j]).1 != t && d[j].0 != t,
{
    let f = resolve_in(d);
    let u = unknown_in(d);
    assert forall|t: Seq<char>| #![auto] (resolve_token(d, t) is None) <==> forall|j: int|
        0 <= j < d.len() ==> (#[trigger] d[j]).1 != t && d[j].0 != t by {
        lemma_region_with_code_exact(d, t);
    }
    assert forall|t: Seq<char>| #[trigger] tokens.filter(u).contains(t) <==> tokens.contains(t)
        && resolve_token(d, t) is None by {
        if tokens.filter(u).contains(t) {
            tokens.lemma_filter_contains_rev(u, t);
            let i = choose|i: int| 0 <= i < tokens.filter(u).len() && tokens.filter(u)[i] == t;
            tokens.lemma_filter_pred(u, i);
        }
        if tokens.contains(t) && resolve_token(d, t) is None {
            let i = choose|i: int| 0 <= i < tokens.len() && tokens[i] == t;
            tokens.lemma_filter_contains(u, i);
        }
    }
    let all_known = forall|t: Seq<char>| #[trigger] tokens.contains(t) ==> exists|j: int|
        0 <= j < d.len() && ((#[trigger] d[j]).1 == t || d[j].0 == t);
    if all_known {
        assert forall|k: int| 0 <= k < tokens.len() implies resolve_token(d, #[trigger] tokens[k]) is Some by {
            assert(tokens.contains(tokens[k]));
        }
        lemma_tokens_all_resolve(d, tokens);
        if tokens.filter(u).len() > 0 {
            let t = tokens.filter(u)[0];
            assert(tokens.filter(u).contains(t));
            assert(tokens.contains(t));
        }
        let chosen = tokens.filter_map(f);
        assert forall|k: int| 0 <= k < tokens.len() implies ((#[trigger] chosen[k] == tokens[k] && has_region(
            d,
            tokens[k],
        ) && forall|j: int| 0 <= j < d.len() ==> (#[trigger] d[j]).1 != tokens[k]) || exists|j: int|
            0 <= j < d.len() && (#[trigger] d[j]).1 == tokens[k] && d[j].0 == chosen[k]) by {
            lemma_region_with_code_exact(d, tokens[k]);
        }
    } else {
        let t = choose|t: Seq<char>| #[trigger] tokens.contains(t) && !exists|j: int|
            0 <= j < d.len() && ((#[trigger] d[j]).1 == t || d[j].0 == t);
        assert(resolve_token(d, t) is None);
        assert(tokens.filter(u).contains(t));
    }
}

/// The answer `countries` chooses every listed region that is not one of the
/// eight groups of countries (oceania, americas, northern america, asia, europe,
/// world, latin america and the caribbean, africa), in the order of the listing,
/// and is refused with no unknown token when no such region is listed.
pub proof fn countries_choice_law(d: Seq<(Seq<char>, Seq<char>)>, tokens: Seq<Seq<char>>)
    requires
        tokens.len() >= 1,
        tokens[0] == "countries"@,
    ensures
        region_choice(d, tokens) matches Ok(chosen) ==> forall|t: Seq<char>|
            #[trigger] chosen.contains(t) <==> has_region(d, t) && !(t == "oceania"@ || t == "americas"@
                || t == "northern america"@ || t == "asia"@ || t == "europe"@ || t == "world"@ || t
                == "latin america and the caribbean"@ || t == "africa"@),
        region_choice(d, tokens) is Ok <==> exists|j: int|
            0 <= j < d.len() && is_country()((#[trigger] d[j]).0),
        region_choice(d, tokens) matches Err(unknown) ==> unknown.len() == 0,
{
    reveal_strlit("all");
    reveal_strlit("countries");
    assert("all"@.len() == 3);
    assert("countries"@.len() == 9);
    assert(tokens[0] != "all"@);
    let names = region_names(d);
    let c = is_country();
    countries_exclude_groups(Seq::empty());
    assert forall|t: Seq<char>| #[trigger] names.filter(c).contains(t) <==> has_region(d, t) && c(t) by {
        countries_exclude_groups(t);
        if names.filter(c).contains(t) {
            names.lemma_filter_contains_rev(c, t);
            let i = choose|i: int| 0 <= i < names.filter(c).len() && names.filter(c)[i] == t;
            names.lemma_filter_pred(c, i);
            let j = choose|j: int| 0 <= j < names.len() && names[j] == t;
            assert(d[j].0 == t);
        }
        if has_region(d, t) && c(t) {
            let j = choose|j: int| 0 <= j < d.len() && (#[trigger] d[j]).0 == t;
            assert(names[j] == t);
            names.lemma_filter_contains(c, j);
        }
    }
    assert forall|t: Seq<char>| #[trigger] c(t) <==> !(t == "oceania"@ || t == "americas"@ || t
        == "northern america"@ || t == "asia"@ || t == "europe"@ || t == "world"@ || t
        == "latin america and the caribbean"@ || t == "africa"@) by {
        countries_exclude_groups(t);
    }
    if names.filter(c).len() > 0 {
        let t = names.filter(c)[0];
        assert(names.filter(c).contains(t));
        let j = choose|j: int| 0 <= j < d.len() && (#[trigger] d[j]).0 == t;
        assert(c(d[j].0));
    }
    if exists|j: int| 0 <= j < d.len() && is_country()((#[trigger] d[j]).0) {
        let j = choose|j: int| 0 <= j < d.len() && is_country()((#[trigger] d[j]).0);
        assert(has_region(d, d[j].0));
        assert(names.filter(c).contains(d[j].0));
    }
}

/// The answer `all` chooses every listed region, each once, in the order of the
/// listing, when no listed region is named `countries` or shares its name with
/// another region's code.
pub proof fn all_regions_law(d: Seq<(Seq<char>, Seq<char>)>, tokens: Seq<Seq<char>>)
    requires
        tokens.len() >= 1,
        tokens[0] == "all"@,
        d.len() >= 1,
        d[0].0 != "countries"@,
        forall|i: int, j: int| 0 <= i < d.len() && 0 <= j < d.len() ==> (#[trigger] d[i]).1 != (#[trigger] d[j]).0,
    ensures
        region_choice(d, tokens) matches Ok(chosen) && chosen.len() == d.len() && forall|k: int|
            0 <= k < d.len() ==> #[trigger] chosen[k] == d[k].0,
{
    let names = region_names(d);
    let u = unknown_in(d);
    assert(names[0] == d[0].0);
    assert forall|k: int| 0 <= k < names.len() implies resolve_token(d, #[trigger] names[k]) == Some(names[k]) by {
        assert(names[k] == d[k].0);
        lemma_region_with_code_exact(d, names[k]);
        assert forall|j: int| 0 <= j < d.len() implies (#[trigger] d[j]).1 != names[k] by {
            assert(d[j].1 != d[k].0);
        }
        assert(has_region(d, names[k]));
    }
    lemma_tokens_all_resolve(d, names);
    if names.filter(u).len() > 0 {
        let t = names.filter(u)[0];
        names.lemma_filter_pred(u, 0);
        assert(names.filter(u).contains(t));
        names.lemma_filter_contains_rev(u, t);
        let k = choose|k: int| 0 <= k < names.len() && names[k] == t;
        assert(resolve_token(d, names[k]) == Some(names[k]));
    }
    assert forall|k: int| 0 <= k < d.len() implies #[trigger] names.filter_map(resolve_in(d))[k] == d[k].0 by {
        assert(names[k] == d[k].0);
        assert(resolve_token(d, names[k]) == Some(names[k]));
    }
}

} // verus!
