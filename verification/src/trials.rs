//! Compression trials: presets, and the order in which they are run.
use crate::models::TrialConfig;
use vstd::prelude::*;

verus! {

/// The Zöpfli iterations that stand for a compression level.
pub open spec fn zopfli_iterations(zc: int) -> int {
    if zc == 1 {
        1
    } else if zc == 2 {
        3
    } else if zc == 3 {
        5
    } else if zc == 4 {
        10
    } else if zc == 6 {
        30
    } else if zc == 7 {
        50
    } else if zc == 8 {
        100
    } else if zc == 9 {
        500
    } else {
        15
    }
}

/// Maps zlib compression levels to Zöpfli iteration counts.
pub fn zc_to_zopfli_iterations(zc: i32) -> (n: i32)
    ensures
        n == zopfli_iterations(zc as int),
{
    match zc {
        1 => 1,
        2 => 3,
        3 => 5,
        4 => 10,
        5 => 15,
        6 => 30,
        7 => 50,
        8 => 100,
        9 => 500,
        _ => 15,
    }
}

/// How hard a zlib strategy works: filtered most, then default, Huffman-only
/// and run lengths; 0 for any other.
pub open spec fn strategy_rank(zs: int) -> int {
    if zs == 1 {
        4
    } else if zs == 0 {
        3
    } else if zs == 2 {
        2
    } else if zs == 3 {
        1
    } else {
        0
    }
}

/// Ranks zlib strategies by difficulty.
pub fn zs_difficulty(zs: i32) -> (n: u8)
    ensures
        n == strategy_rank(zs as int),
{
    match zs {
        1 => 4,
        0 => 3,
        2 => 2,
        3 => 1,
        _ => 0,
    }
}

/// The preset of Zöpfli compression levels for an optimization level.
pub open spec fn zopfli_levels(level: int) -> Seq<i32> {
    if level == 1 {
        seq![1]
    } else if level == 3 {
        seq![3]
    } else if level == 4 {
        seq![4]
    } else if level == 5 {
        seq![5]
    } else if level == 6 {
        seq![6]
    } else if level == 7 {
        seq![7]
    } else {
        seq![2]
    }
}

/// The preset of filters for Zöpfli and an optimization level.
pub open spec fn zopfli_filters(level: int) -> Seq<u8> {
    if level == 1 {
        seq![3]
    } else if level == 7 {
        seq![3, 5]
    } else {
        seq![5]
    }
}

/// Returns the preset compression levels and filters for Zöpfli. Levels
/// without a preset are treated as level 2.
pub fn get_zopfli_opt_combinations(level: u8) -> (r: (Vec<i32>, Vec<u8>))
    ensures
        r.0@ == zopfli_levels(level as int),
        r.1@ == zopfli_filters(level as int),
{
    match level {
        1 => (vec![1], vec![3]),
        3 => (vec![3], vec![5]),
        4 => (vec![4], vec![5]),
        5 => (vec![5], vec![5]),
        6 => (vec![6], vec![5]),
        7 => (vec![7], vec![3, 5]),
        _ => (vec![2], vec![5]),
    }
}

/// The preset zlib compression levels for an optimization level.
pub open spec fn preset_zc(level: int) -> Seq<i32> {
    if level == 6 || level == 7 {
        seq![1, 2, 3, 4, 5, 6, 7, 8, 9]
    } else {
        seq![9]
    }
}

/// The preset zlib memory levels for an optimization level.
pub open spec fn preset_zm(level: int) -> Seq<i32> {
    if level == 3 || level == 5 || level == 7 {
        seq![8, 9]
    } else {
        seq![8]
    }
}

/// The preset zlib strategies for an optimization level.
pub open spec fn preset_zs(level: int) -> Seq<i32> {
    if level == 0 || level == 1 {
        seq![0]
    } else {
        seq![0, 1, 2, 3]
    }
}

/// The preset filters for an optimization level. The lowest levels try one
/// filter: none for images with a palette or few bits, else adaptive.
pub open spec fn preset_f(level: int, color_type: u8, bit_depth: u8) -> Seq<u8> {
    if level == 0 || level == 1 {
        if color_type == 3 || bit_depth < 8 { seq![0] } else { seq![5] }
    } else if 4 <= level <= 7 {
        seq![0, 1, 2, 3, 4, 5]
    } else {
        seq![0, 5]
    }
}

/// Returns the preset compression levels, memory levels, strategies and
/// filters for zlib. Levels without a preset are treated as level 2.
pub fn get_opt_combinations(level: u8, color_type: u8, bit_depth: u8) -> (r: (Vec<i32>, Vec<i32>, Vec<i32>, Vec<u8>))
    ensures
        r.0@ == preset_zc(level as int),
        r.1@ == preset_zm(level as int),
        r.2@ == preset_zs(level as int),
        r.3@ == preset_f(level as int, color_type, bit_depth),
{
    match level {
        0 | 1 => {
            let filter: Vec<u8> = if color_type == 3 || bit_depth < 8 { vec![0] } else { vec![5] };
            (vec![9], vec![8], vec![0], filter)
        },
        3 => (vec![9], vec![8, 9], vec![0, 1, 2, 3], vec![0, 5]),
        4 => (vec![9], vec![8], vec![0, 1, 2, 3], vec![0, 1, 2, 3, 4, 5]),
        5 => (vec![9], vec![8, 9], vec![0, 1, 2, 3], vec![0, 1, 2, 3, 4, 5]),
        6 => (vec![1, 2, 3, 4, 5, 6, 7, 8, 9], vec![8], vec![0, 1, 2, 3], vec![0, 1, 2, 3, 4, 5]),
        7 => (vec![1, 2, 3, 4, 5, 6, 7, 8, 9], vec![8, 9], vec![0, 1, 2, 3], vec![0, 1, 2, 3, 4, 5]),
        _ => (vec![9], vec![8], vec![0, 1, 2, 3], vec![0, 5]),
    }
}

/// What `g` gives for each element of `s`, one after another.
pub open spec fn for_each<A>(s: Seq<A>, g: spec_fn(A) -> Seq<TrialConfig>) -> Seq<TrialConfig>
    decreases s.len(),
{
    if s.len() == 0 {
        Seq::empty()
    } else {
        for_each(s.drop_last(), g) + g(s.last())
    }
}

/// The compression level makes no difference to the Huffman-only and run
/// length strategies, so they are tried at the lowest levels alone.
pub open spec fn is_redundant(zc: i32, zs: i32) -> bool {
    (zs == 2 || zs == 3) && zc > 1
}

/// One trial for each filter.
pub open spec fn filter_trials(zc: i32, zm: i32, zs: i32, f: Seq<u8>) -> Seq<TrialConfig> {
    if is_redundant(zc, zs) {
        Seq::empty()
    } else {
        f.map_values(|x: u8| TrialConfig { zc, zm, zs, f: x })
    }
}

pub open spec fn strategy_trials(zc: i32, zm: i32, zs: Seq<i32>, f: Seq<u8>) -> Seq<TrialConfig> {
    for_each(zs, |x: i32| filter_trials(zc, zm, x, f))
}

pub open spec fn memory_trials(zc: i32, zm: Seq<i32>, zs: Seq<i32>, f: Seq<u8>) -> Seq<TrialConfig> {
    for_each(zm, |x: i32| strategy_trials(zc, x, zs, f))
}

/// All combinations that are worth a trial, in the order of the lists.
pub open spec fn all_trials(zc: Seq<i32>, zm: Seq<i32>, zs: Seq<i32>, f: Seq<u8>) -> Seq<TrialConfig> {
    for_each(zc, |x: i32| memory_trials(x, zm, zs, f))
}

/// Trial `a` counts for less than trial `b`: by its compression level, then
/// its strategy's rank, its memory level and its filter.
pub open spec fn ranks_below(a: TrialConfig, b: TrialConfig) -> bool {
    if a.zc != b.zc {
        a.zc < b.zc
    } else if strategy_rank(a.zs as int) != strategy_rank(b.zs as int) {
        strategy_rank(a.zs as int) < strategy_rank(b.zs as int)
    } else if a.zm != b.zm {
        a.zm < b.zm
    } else {
        a.f < b.f
    }
}

/// `s` with `t` in its place: behind every trial that does not rank below
/// it.
pub open spec fn insert_trial(s: Seq<TrialConfig>, t: TrialConfig) -> Seq<TrialConfig>
    decreases s.len(),
{
    if s.len() > 0 && ranks_below(s.last(), t) {
        insert_trial(s.drop_last(), t).push(s.last())
    } else {
        s.push(t)
    }
}

/// The trials from the highest rank to the lowest; trials of equal rank keep
/// their order.
pub open spec fn by_rank(s: Seq<TrialConfig>) -> Seq<TrialConfig>
    decreases s.len(),
{
    if s.len() == 0 {
        s
    } else {
        insert_trial(by_rank(s.drop_last()), s.last())
    }
}

fn below(a: &TrialConfig, b: &TrialConfig) -> (r: bool)
    ensures
        r == ranks_below(*a, *b),
{
    let ra: u8 = zs_difficulty(a.zs);
    let rb: u8 = zs_difficulty(b.zs);
    if a.zc != b.zc {
        a.zc < b.zc
    } else if ra != rb {
        ra < rb
    } else if a.zm != b.zm {
        a.zm < b.zm
    } else {
        a.f < b.f
    }
}

proof fn lemma_insert_trial(s: Seq<TrialConfig>, t: TrialConfig, k: int)
    requires
        0 <= k <= s.len(),
        forall|i: int| k <= i < s.len() ==> ranks_below(#[trigger] s[i], t),
        k > 0 ==> !ranks_below(s[k - 1], t),
    ensures
        insert_trial(s, t) == s.insert(k, t),
    decreases s.len(),
{
    if k < s.len() {
        lemma_insert_trial(s.drop_last(), t, k);
        assert(s.insert(k, t) =~= s.drop_last().insert(k, t).push(s.last()));
    } else {
        assert(s.insert(k, t) =~= s.push(t));
    }
}

fn put_trial(trials: &mut Vec<TrialConfig>, t: TrialConfig)
    ensures
        final(trials)@ == insert_trial(old(trials)@, t),
{
    let mut k: usize = trials.len();
    while k > 0 && below(&trials[k - 1], &t)
        invariant
            k <= trials@.len(),
            forall|i: int| k <= i < trials@.len() ==> ranks_below(#[trigger] trials@[i], t),
        decreases k,
    {
        k = k - 1;
    }
    proof {
        lemma_insert_trial(trials@, t, k as int);
    }
    trials.insert(k, t);
}

fn append_filter_trials(out: &mut Vec<TrialConfig>, zc: i32, zm: i32, zs: i32, f_list: &[u8])
    ensures
        final(out)@ == old(out)@ + filter_trials(zc, zm, zs, f_list@),
{
    let ghost before = out@;
    let ghost want = filter_trials(zc, zm, zs, f_list@);
    if (zs == 2 || zs == 3) && zc > 1 {
        assert(out@ =~= before + want);
        return;
    }
    let mut i: usize = 0;
    while i < f_list.len()
        invariant
            i <= f_list@.len(),
            want == f_list@.map_values(|x: u8| TrialConfig { zc, zm, zs, f: x }),
            out@ == before + want.take(i as int),
        decreases f_list@.len() - i,
    {
        out.push(TrialConfig { zc, zm, zs, f: f_list[i] });
        assert(want.take(i + 1) =~= want.take(i as int).push(want[i as int]));
        i = i + 1;
    }
    assert(want.take(i as int) =~= want);
}

fn append_strategy_trials(out: &mut Vec<TrialConfig>, zc: i32, zm: i32, zs_list: &[i32], f_list: &[u8])
    ensures
        final(out)@ == old(out)@ + strategy_trials(zc, zm, zs_list@, f_list@),
{
    let ghost before = out@;
    let ghost g = |x: i32| filter_trials(zc, zm, x, f_list@);
    let mut i: usize = 0;
    while i < zs_list.len()
        invariant
            i <= zs_list@.len(),
            g == (|x: i32| filter_trials(zc, zm, x, f_list@)),
            out@ == before + for_each(zs_list@.take(i as int), g),
        decreases zs_list@.len() - i,
    {
        append_filter_trials(out, zc, zm, zs_list[i], f_list);
        assert(zs_list@.take(i + 1).drop_last() =~= zs_list@.take(i as int));
        i = i + 1;
    }
    assert(zs_list@.take(i as int) =~= zs_list@);
}

fn append_memory_trials(out: &mut Vec<TrialConfig>, zc: i32, zm_list: &[i32], zs_list: &[i32], f_list: &[u8])
    ensures
        final(out)@ == old(out)@ + memory_trials(zc, zm_list@, zs_list@, f_list@),
{
    let ghost before = out@;
    let ghost g = |x: i32| strategy_trials(zc, x, zs_list@, f_list@);
    let mut i: usize = 0;
    while i < zm_list.len()
        invariant
            i <= zm_list@.len(),
            g == (|x: i32| strategy_trials(zc, x, zs_list@, f_list@)),
            out@ == before + for_each(zm_list@.take(i as int), g),
        decreases zm_list@.len() - i,
    {
        append_strategy_trials(out, zc, zm_list[i], zs_list, f_list);
        assert(zm_list@.take(i + 1).drop_last() =~= zm_list@.take(i as int));
        i = i + 1;
    }
    assert(zm_list@.take(i as int) =~= zm_list@);
}

/// Builds the list of trials for the given settings, the highest rank first.
pub fn build_trial_list(zc_list: &[i32], zm_list: &[i32], zs_list: &[i32], f_list: &[u8]) -> (r: Vec<TrialConfig>)
    ensures
        r@ == by_rank(all_trials(zc_list@, zm_list@, zs_list@, f_list@)),
{
    let ghost g = |x: i32| memory_trials(x, zm_list@, zs_list@, f_list@);
    let mut all: Vec<TrialConfig> = Vec::new();
    let mut i: usize = 0;
    while i < zc_list.len()
        invariant
            i <= zc_list@.len(),
            g == (|x: i32| memory_trials(x, zm_list@, zs_list@, f_list@)),
            all@ == for_each(zc_list@.take(i as int), g),
        decreases zc_list@.len() - i,
    {
        append_memory_trials(&mut all, zc_list[i], zm_list, zs_list, f_list);
        assert(zc_list@.take(i + 1).drop_last() =~= zc_list@.take(i as int));
        i = i + 1;
    }
    assert(zc_list@.take(i as int) =~= zc_list@);
    let mut sorted: Vec<TrialConfig> = Vec::new();
    let mut k: usize = 0;
    assert(all@.take(0) =~= Seq::empty());
    while k < all.len()
        invariant
            k <= all@.len(),
            sorted@ == by_rank(all@.take(k as int)),
        decreases all@.len() - k,
    {
        put_trial(&mut sorted, all[k]);
        assert(all@.take(k + 1).drop_last() =~= all@.take(k as int));
        k = k + 1;
    }
    assert(all@.take(k as int) =~= all@);
    sorted
}

/// The list of trials runs from the highest rank to the lowest.
pub proof fn law_trials_run_by_rank(s: Seq<TrialConfig>, i: int, j: int)
    requires
        0 <= i <= j < by_rank(s).len(),
    ensures
        !ranks_below(by_rank(s)[i], by_rank(s)[j]),
    decreases s.len(),
{
    if s.len() > 0 {
        let head = by_rank(s.drop_last());
        assert forall|a: int, b: int| 0 <= a <= b < head.len() implies !ranks_below(head[a], head[b]) by {
            law_trials_run_by_rank(s.drop_last(), a, b);
        }
        lemma_insert_sorted(head, s.last());
    }
}

proof fn lemma_insert_sorted(s: Seq<TrialConfig>, t: TrialConfig)
    requires
        forall|a: int, b: int| 0 <= a <= b < s.len() ==> !ranks_below(s[a], s[b]),
    ensures
        forall|a: int, b: int| 0 <= a <= b < insert_trial(s, t).len()
            ==> !ranks_below(insert_trial(s, t)[a], insert_trial(s, t)[b]),
        forall|u: TrialConfig| insert_trial(s, t).contains(u) ==> s.contains(u) || u == t,
    decreases s.len(),
{
    let r = insert_trial(s, t);
    if s.len() > 0 && ranks_below(s.last(), t) {
        let d = s.drop_last();
        let m = insert_trial(d, t);
        assert forall|a: int, b: int| 0 <= a <= b < d.len() implies !ranks_below(d[a], d[b]) by {
            assert(!ranks_below(s[a], s[b]));
        }
        lemma_insert_sorted(d, t);
        assert forall|a: int, b: int| 0 <= a <= b < r.len() implies !ranks_below(r[a], r[b]) by {
            if b == m.len() {
                if a < b {
                    assert(m.contains(m[a]));
                    if d.contains(m[a]) {
                        let c = choose|c: int| 0 <= c < d.len() && d[c] == m[a];
                        assert(!ranks_below(s[c], s[s.len() - 1]));
                    }
                }
            } else {
                assert(!ranks_below(m[a], m[b]));
            }
        }
        assert forall|u: TrialConfig| r.contains(u) implies s.contains(u) || u == t by {
            let c = choose|c: int| 0 <= c < r.len() && r[c] == u;
            if c < m.len() {
                assert(m.contains(m[c]));
                if d.contains(u) {
                    let e = choose|e: int| 0 <= e < d.len() && d[e] == u;
                    assert(s[e] == u);
                }
            } else {
                assert(s[s.len() - 1] == u);
            }
        }
    } else {
        assert forall|a: int, b: int| 0 <= a <= b < r.len() implies !ranks_below(r[a], r[b]) by {
            if a < s.len() && b == s.len() {
                assert(!ranks_below(s[a], s[s.len() - 1]));
            } else if b < s.len() {
                assert(!ranks_below(s[a], s[b]));
            }
        }
        assert forall|u: TrialConfig| r.contains(u) implies s.contains(u) || u == t by {
            let c = choose|c: int| 0 <= c < r.len() && r[c] == u;
            if c < s.len() {
                assert(s[c] == u);
            }
        }
    }
}

/// Trials `a` and `b` rank the same.
pub open spec fn same_rank(a: TrialConfig, b: TrialConfig) -> bool {
    !ranks_below(a, b) && !ranks_below(b, a)
}

/// Ordering loses, adds and repeats no trial, and trials of the same rank
/// stay in their order: of each rank the list holds exactly what was there.
pub proof fn law_trial_order_is_stable(s: Seq<TrialConfig>, t: TrialConfig)
    ensures
        by_rank(s).filter(|u: TrialConfig| same_rank(u, t)) == s.filter(|u: TrialConfig| same_rank(u, t)),
        by_rank(s).to_multiset() == s.to_multiset(),
    decreases s.len(),
{
    broadcast use vstd::seq_lib::group_to_multiset_ensures;
    if s.len() > 0 {
        let head = by_rank(s.drop_last());
        law_trial_order_is_stable(s.drop_last(), t);
        assert forall|a: int, b: int| 0 <= a <= b < head.len() implies !ranks_below(head[a], head[b]) by {
            law_trials_run_by_rank(s.drop_last(), a, b);
        }
        lemma_insert_stable(head, s.last(), t);
        assert(s =~= s.drop_last().push(s.last()));
        let pred = |u: TrialConfig| same_rank(u, t);
        lemma_filter_push(s.drop_last(), s.last(), pred);
        lemma_filter_push(head, s.last(), pred);
    }
}

proof fn lemma_filter_push(s: Seq<TrialConfig>, t: TrialConfig, pred: spec_fn(TrialConfig) -> bool)
    ensures
        s.push(t).filter(pred) == (if pred(t) { s.filter(pred).push(t) } else { s.filter(pred) }),
{
    reveal(Seq::filter);
    assert(s.push(t).drop_last() =~= s);
}

proof fn lemma_insert_stable(s: Seq<TrialConfig>, u: TrialConfig, t: TrialConfig)
    requires
        forall|a: int, b: int| 0 <= a <= b < s.len() ==> !ranks_below(s[a], s[b]),
    ensures
        insert_trial(s, u).filter(|v: TrialConfig| same_rank(v, t))
            == s.push(u).filter(|v: TrialConfig| same_rank(v, t)),
        insert_trial(s, u).to_multiset() == s.to_multiset().insert(u),
    decreases s.len(),
{
    broadcast use vstd::seq_lib::group_to_multiset_ensures;
    let pred = |v: TrialConfig| same_rank(v, t);
    if s.len() > 0 && ranks_below(s.last(), u) {
        let d = s.drop_last();
        assert forall|a: int, b: int| 0 <= a <= b < d.len() implies !ranks_below(d[a], d[b]) by {
            assert(!ranks_below(s[a], s[b]));
        }
        lemma_insert_stable(d, u, t);
        let m = insert_trial(d, u);
        assert(s =~= d.push(s.last()));
        lemma_filter_push(m, s.last(), pred);
        lemma_filter_push(d, u, pred);
        lemma_filter_push(d, s.last(), pred);
        lemma_filter_push(s, u, pred);
        assert(!(pred(u) && pred(s.last())));
        assert(insert_trial(s, u).filter(pred) =~= s.push(u).filter(pred));
        assert(insert_trial(s, u).to_multiset() =~= s.to_multiset().insert(u));
    }
}

proof fn lemma_for_each<A>(s: Seq<A>, g: spec_fn(A) -> Seq<TrialConfig>, t: TrialConfig)
    ensures
        for_each(s, g).contains(t) <==> exists|i: int| 0 <= i < s.len() && g(#[trigger] s[i]).contains(t),
    decreases s.len(),
{
    let all = for_each(s, g);
    if s.len() > 0 {
        let d = s.drop_last();
        let head = for_each(d, g);
        let last = g(s.last());
        lemma_for_each(d, g, t);
        if all.contains(t) {
            let k = choose|k: int| 0 <= k < all.len() && all[k] == t;
            if k < head.len() {
                assert(head[k] == t);
                let i = choose|i: int| 0 <= i < d.len() && g(#[trigger] d[i]).contains(t);
                assert(g(s[i]).contains(t));
            } else {
                assert(last[k - head.len()] == t);
                assert(g(s[s.len() - 1]).contains(t));
            }
        }
        if exists|i: int| 0 <= i < s.len() && g(#[trigger] s[i]).contains(t) {
            let i = choose|i: int| 0 <= i < s.len() && g(#[trigger] s[i]).contains(t);
            if i < d.len() {
                assert(g(d[i]).contains(t));
                let k = choose|k: int| 0 <= k < head.len() && head[k] == t;
                assert(all[k] == t);
            } else {
                let k = choose|k: int| 0 <= k < last.len() && last[k] == t;
                assert(all[head.len() + k] == t);
            }
        }
    }
}

/// What is given for different elements is different.
spec fn keeps_apart<A>(s: Seq<A>, g: spec_fn(A) -> Seq<TrialConfig>) -> bool {
    forall|i: int, j: int, t: TrialConfig|
        0 <= i < j < s.len() && (#[trigger] g(s[i]).contains(t)) ==> !#[trigger] g(s[j]).contains(t)
}

proof fn lemma_for_each_distinct<A>(s: Seq<A>, g: spec_fn(A) -> Seq<TrialConfig>)
    requires
        keeps_apart(s, g),
        forall|i: int| 0 <= i < s.len() ==> g(#[trigger] s[i]).no_duplicates(),
    ensures
        for_each(s, g).no_duplicates(),
    decreases s.len(),
{
    if s.len() > 0 {
        let d = s.drop_last();
        let head = for_each(d, g);
        let last = g(s.last());
        let all = for_each(s, g);
        assert(keeps_apart(d, g)) by {
            assert forall|i: int, j: int, t: TrialConfig|
                0 <= i < j < d.len() && (#[trigger] g(d[i]).contains(t)) implies !#[trigger] g(d[j]).contains(t) by {
                assert(g(s[i]).contains(t));
            }
        }
        assert forall|i: int| 0 <= i < d.len() implies g(#[trigger] d[i]).no_duplicates() by {
            assert(g(s[i]).no_duplicates());
        }
        lemma_for_each_distinct(d, g);
        assert(g(s[s.len() - 1]).no_duplicates());
        assert forall|a: int, b: int| 0 <= a < b < all.len() implies all[a] != all[b] by {
            if a < head.len() && b >= head.len() {
                let t = all[a];
                assert(head[a] == t);
                assert(head.contains(t));
                lemma_for_each(d, g, t);
                let i = choose|i: int| 0 <= i < d.len() && g(#[trigger] d[i]).contains(t);
                assert(g(s[i]).contains(t));
                assert(!g(s[s.len() - 1]).contains(t));
                assert(last[b - head.len()] == all[b]);
                if all[b] == t {
                    assert(last.contains(t));
                }
            } else if a >= head.len() {
                assert(last[a - head.len()] != last[b - head.len()]);
            } else {
                assert(head[a] != head[b]);
            }
        }
    }
}

proof fn lemma_filter_trials(zc: i32, zm: i32, zs: i32, f: Seq<u8>, t: TrialConfig)
    ensures
        filter_trials(zc, zm, zs, f).contains(t) <==> t.zc == zc && t.zm == zm && t.zs == zs && f.contains(t.f)
            && !is_redundant(zc, zs),
        f.no_duplicates() ==> filter_trials(zc, zm, zs, f).no_duplicates(),
{
    let r = filter_trials(zc, zm, zs, f);
    if r.contains(t) {
        let k = choose|k: int| 0 <= k < r.len() && r[k] == t;
        assert(f[k] == t.f);
    }
    if t.zc == zc && t.zm == zm && t.zs == zs && f.contains(t.f) && !is_redundant(zc, zs) {
        let k = choose|k: int| 0 <= k < f.len() && f[k] == t.f;
        assert(r[k] == t);
    }
}

proof fn lemma_strategy_trials(zc: i32, zm: i32, zs: Seq<i32>, f: Seq<u8>, t: TrialConfig)
    ensures
        strategy_trials(zc, zm, zs, f).contains(t) <==> t.zc == zc && t.zm == zm && zs.contains(t.zs) && f.contains(t.f)
            && !is_redundant(zc, t.zs),
{
    let g = |x: i32| filter_trials(zc, zm, x, f);
    lemma_for_each(zs, g, t);
    assert forall|x: i32| #![trigger g(x)] true implies (g(x).contains(t) <==> t.zc == zc && t.zm == zm && t.zs == x
        && f.contains(t.f) && !is_redundant(zc, x)) by {
        lemma_filter_trials(zc, zm, x, f, t);
    }
    if zs.contains(t.zs) {
        let k = choose|k: int| 0 <= k < zs.len() && zs[k] == t.zs;
        assert(g(zs[k]).contains(t) <==> t.zc == zc && t.zm == zm && f.contains(t.f) && !is_redundant(zc, t.zs));
    }
}

proof fn lemma_memory_trials(zc: i32, zm: Seq<i32>, zs: Seq<i32>, f: Seq<u8>, t: TrialConfig)
    ensures
        memory_trials(zc, zm, zs, f).contains(t) <==> t.zc == zc && zm.contains(t.zm) && zs.contains(t.zs)
            && f.contains(t.f) && !is_redundant(zc, t.zs),
{
    let g = |x: i32| strategy_trials(zc, x, zs, f);
    lemma_for_each(zm, g, t);
    assert forall|x: i32| #![trigger g(x)] true implies (g(x).contains(t) <==> t.zc == zc && t.zm == x && zs.contains(
        t.zs,
    ) && f.contains(t.f) && !is_redundant(zc, t.zs)) by {
        lemma_strategy_trials(zc, x, zs, f, t);
    }
    if zm.contains(t.zm) {
        let k = choose|k: int| 0 <= k < zm.len() && zm[k] == t.zm;
        assert(g(zm[k]).contains(t) <==> t.zc == zc && zs.contains(t.zs) && f.contains(t.f) && !is_redundant(zc, t.zs));
    }
}

proof fn lemma_all_trials(zc: Seq<i32>, zm: Seq<i32>, zs: Seq<i32>, f: Seq<u8>, t: TrialConfig)
    ensures
        all_trials(zc, zm, zs, f).contains(t) <==> zc.contains(t.zc) && zm.contains(t.zm) && zs.contains(t.zs)
            && f.contains(t.f) && !is_redundant(t.zc, t.zs),
{
    let g = |x: i32| memory_trials(x, zm, zs, f);
    lemma_for_each(zc, g, t);
    assert forall|x: i32| #![trigger g(x)] true implies (g(x).contains(t) <==> t.zc == x && zm.contains(t.zm)
        && zs.contains(t.zs) && f.contains(t.f) && !is_redundant(x, t.zs)) by {
        lemma_memory_trials(x, zm, zs, f, t);
    }
    if zc.contains(t.zc) {
        let k = choose|k: int| 0 <= k < zc.len() && zc[k] == t.zc;
        assert(g(zc[k]).contains(t) <==> zm.contains(t.zm) && zs.contains(t.zs) && f.contains(t.f) && !is_redundant(
            t.zc,
            t.zs,
        ));
    }
}

proof fn lemma_all_distinct(zc: Seq<i32>, zm: Seq<i32>, zs: Seq<i32>, f: Seq<u8>)
    requires
        zc.no_duplicates(),
        zm.no_duplicates(),
        zs.no_duplicates(),
        f.no_duplicates(),
    ensures
        all_trials(zc, zm, zs, f).no_duplicates(),
{
    let g = |x: i32| memory_trials(x, zm, zs, f);
    assert forall|i: int| 0 <= i < zc.len() implies g(#[trigger] zc[i]).no_duplicates() by {
        let c = zc[i];
        let h = |x: i32| strategy_trials(c, x, zs, f);
        assert forall|j: int| 0 <= j < zm.len() implies h(#[trigger] zm[j]).no_duplicates() by {
            let m = zm[j];
            let k = |x: i32| filter_trials(c, m, x, f);
            assert forall|l: int| 0 <= l < zs.len() implies k(#[trigger] zs[l]).no_duplicates() by {
                lemma_filter_trials(c, m, zs[l], f, TrialConfig { zc: 0, zm: 0, zs: 0, f: 0 });
            }
            assert forall|a: int, b: int, t: TrialConfig|
                0 <= a < b < zs.len() && (#[trigger] k(zs[a]).contains(t)) implies !#[trigger] k(zs[b]).contains(t) by {
                lemma_filter_trials(c, m, zs[a], f, t);
                lemma_filter_trials(c, m, zs[b], f, t);
            }
            lemma_for_each_distinct(zs, k);
        }
        assert forall|a: int, b: int, t: TrialConfig|
            0 <= a < b < zm.len() && (#[trigger] h(zm[a]).contains(t)) implies !#[trigger] h(zm[b]).contains(t) by {
            lemma_strategy_trials(c, zm[a], zs, f, t);
            lemma_strategy_trials(c, zm[b], zs, f, t);
        }
        lemma_for_each_distinct(zm, h);
    }
    assert forall|a: int, b: int, t: TrialConfig|
        0 <= a < b < zc.len() && (#[trigger] g(zc[a]).contains(t)) implies !#[trigger] g(zc[b]).contains(t) by {
        lemma_memory_trials(zc[a], zm, zs, f, t);
        lemma_memory_trials(zc[b], zm, zs, f, t);
    }
    lemma_for_each_distinct(zc, g);
}

/// Every combination of the settings that are given is tried, but for those
/// that make no difference, and nothing else; and it is tried once, if no
/// setting is given twice.
pub proof fn law_every_combination_is_tried(
    zc: Seq<i32>,
    zm: Seq<i32>,
    zs: Seq<i32>,
    f: Seq<u8>,
    t: TrialConfig,
)
    ensures
        by_rank(all_trials(zc, zm, zs, f)).contains(t) <==> zc.contains(t.zc) && zm.contains(t.zm) && zs.contains(t.zs)
            && f.contains(t.f) && !is_redundant(t.zc, t.zs),
        zc.no_duplicates() && zm.no_duplicates() && zs.no_duplicates() && f.no_duplicates() ==> by_rank(
            all_trials(zc, zm, zs, f),
        ).no_duplicates(),
{
    broadcast use vstd::seq_lib::group_to_multiset_ensures;

    let all = all_trials(zc, zm, zs, f);
    let r = by_rank(all);
    lemma_all_trials(zc, zm, zs, f, t);
    law_trial_order_is_stable(all, t);
    assert(r.contains(t) <==> r.to_multiset().count(t) > 0);
    assert(all.contains(t) <==> all.to_multiset().count(t) > 0);
    if zc.no_duplicates() && zm.no_duplicates() && zs.no_duplicates() && f.no_duplicates() {
        lemma_all_distinct(zc, zm, zs, f);
        all.lemma_multiset_has_no_duplicates();
        r.lemma_multiset_has_no_duplicates_conv();
    }
}

/// How often a trial comes up when it comes up `c` times for `key` and never
/// for anything else.
proof fn lemma_for_each_count<A>(s: Seq<A>, g: spec_fn(A) -> Seq<TrialConfig>, t: TrialConfig, key: A, c: nat)
    requires
        g(key).to_multiset().count(t) == c,
        forall|x: A| #![trigger g(x)] x != key ==> g(x).to_multiset().count(t) == 0,
    ensures
        for_each(s, g).to_multiset().count(t) == s.to_multiset().count(key) * c,
    decreases s.len(),
{
    broadcast use vstd::seq_lib::group_to_multiset_ensures;
    broadcast use vstd::multiset::group_multiset_axioms;

    if s.len() == 0 {
        assert(s.to_multiset().count(key) == 0) by {
            assert(!s.contains(key));
        }
        assert(for_each(s, g).to_multiset().count(t) == 0) by {
            assert(!for_each(s, g).contains(t));
        }
        assert(0 * c == 0);
    } else {
        let d = s.drop_last();
        let x = s.last();
        lemma_for_each_count(d, g, t, key, c);
        vstd::seq_lib::lemma_multiset_commutative(for_each(d, g), g(x));
        assert(d.push(x) =~= s);
        let n = d.to_multiset().count(key);
        assert((n + 1) * c == n * c + c) by (nonlinear_arith);
        assert(g(x).to_multiset().count(t) == (if x == key { c } else { 0 }));
    }
}

/// How often a trial is run.
proof fn lemma_trial_count(zc: Seq<i32>, zm: Seq<i32>, zs: Seq<i32>, f: Seq<u8>, t: TrialConfig)
    ensures
        all_trials(zc, zm, zs, f).to_multiset().count(t) == zc.to_multiset().count(t.zc) * (zm.to_multiset().count(t.zm)
            * (zs.to_multiset().count(t.zs) * (if is_redundant(t.zc, t.zs) { 0 } else { f.to_multiset().count(t.f) }))),
{
    let nf: nat = if is_redundant(t.zc, t.zs) { 0 } else { f.to_multiset().count(t.f) };
    let ns = zs.to_multiset().count(t.zs) * nf;
    let nm = zm.to_multiset().count(t.zm) * ns;
    assert forall|c: i32, m: i32, s: i32|
        #[trigger] filter_trials(c, m, s, f).to_multiset().count(t) == (if c == t.zc && m == t.zm && s == t.zs {
            nf
        } else {
            0
        }) by {
        lemma_filter_count(c, m, s, f, t);
    }
    assert forall|c: i32, m: i32|
        #[trigger] strategy_trials(c, m, zs, f).to_multiset().count(t) == (if c == t.zc && m == t.zm {
            ns
        } else {
            0
        }) by {
        let g = |x: i32| filter_trials(c, m, x, f);
        let n: nat = if c == t.zc && m == t.zm { nf } else { 0 };
        assert(g(t.zs).to_multiset().count(t) == n);
        lemma_for_each_count(zs, g, t, t.zs, n);
        assert(zs.to_multiset().count(t.zs) * 0 == 0);
    }
    assert forall|c: i32|
        #[trigger] memory_trials(c, zm, zs, f).to_multiset().count(t) == (if c == t.zc { nm } else { 0 }) by {
        let g = |x: i32| strategy_trials(c, x, zs, f);
        let n: nat = if c == t.zc { ns } else { 0 };
        assert(g(t.zm).to_multiset().count(t) == n);
        lemma_for_each_count(zm, g, t, t.zm, n);
        assert(zm.to_multiset().count(t.zm) * 0 == 0);
    }
    let g = |x: i32| memory_trials(x, zm, zs, f);
    assert(g(t.zc).to_multiset().count(t) == nm);
    lemma_for_each_count(zc, g, t, t.zc, nm);
}

proof fn lemma_filter_count(zc: i32, zm: i32, zs: i32, f: Seq<u8>, t: TrialConfig)
    ensures
        filter_trials(zc, zm, zs, f).to_multiset().count(t) == (if zc == t.zc && zm == t.zm && zs == t.zs
            && !is_redundant(zc, zs) {
            f.to_multiset().count(t.f)
        } else {
            0
        }),
    decreases f.len(),
{
    broadcast use vstd::seq_lib::group_to_multiset_ensures;
    broadcast use vstd::multiset::group_multiset_axioms;

    let r = filter_trials(zc, zm, zs, f);
    if f.len() == 0 || is_redundant(zc, zs) {
        assert(!r.contains(t));
        assert(f.len() == 0 ==> !f.contains(t.f));
    } else {
        let d = f.drop_last();
        lemma_filter_count(zc, zm, zs, d, t);
        assert(d.push(f.last()) =~= f);
        assert(r =~= filter_trials(zc, zm, zs, d).push(TrialConfig { zc, zm, zs, f: f.last() }));
    }
}

/// Two lists in order that hold the same trials are the same, if trials of
/// the same rank are.
proof fn lemma_same_order(a: Seq<TrialConfig>, b: Seq<TrialConfig>)
    requires
        a.to_multiset() == b.to_multiset(),
        forall|i: int, j: int| 0 <= i <= j < a.len() ==> !ranks_below(a[i], a[j]),
        forall|i: int, j: int| 0 <= i <= j < b.len() ==> !ranks_below(b[i], b[j]),
        forall|i: int, j: int|
            0 <= i < a.len() && 0 <= j < a.len() && #[trigger] same_rank(a[i], a[j]) ==> a[i] == a[j],
    ensures
        a == b,
    decreases a.len(),
{
    broadcast use vstd::seq_lib::group_to_multiset_ensures;
    broadcast use vstd::multiset::group_multiset_axioms;

    assert(a.len() == b.len()) by {
        assert(a.to_multiset().len() == a.len());
        assert(b.to_multiset().len() == b.len());
    }
    if a.len() == 0 {
        assert(a =~= b);
    } else {
        let last = a.len() - 1;
        let x = a[last];
        let y = b[last];
        assert(a.contains(x));
        assert(b.to_multiset().count(x) > 0);
        assert(b.contains(x));
        let k = choose|k: int| 0 <= k < b.len() && b[k] == x;
        assert(!ranks_below(b[k], b[last]));
        assert(b.contains(y));
        assert(a.to_multiset().count(y) > 0);
        assert(a.contains(y));
        let m = choose|m: int| 0 <= m < a.len() && a[m] == y;
        assert(!ranks_below(a[m], a[last]));
        assert(same_rank(a[m], a[last]));
        assert(x == y);
        let c = a.drop_last();
        let d = b.drop_last();
        assert(c.push(x) =~= a);
        assert(d.push(x) =~= b);
        assert(c.to_multiset().insert(x) == d.to_multiset().insert(x));
        assert(c.to_multiset() =~= d.to_multiset()) by {
            assert forall|t: TrialConfig| c.to_multiset().count(t) == d.to_multiset().count(t) by {
                assert(c.to_multiset().insert(x).count(t) == d.to_multiset().insert(x).count(t));
            }
        }
        assert forall|i: int, j: int| 0 <= i <= j < c.len() implies !ranks_below(c[i], c[j]) by {
            assert(!ranks_below(a[i], a[j]));
        }
        assert forall|i: int, j: int| 0 <= i <= j < d.len() implies !ranks_below(d[i], d[j]) by {
            assert(!ranks_below(b[i], b[j]));
        }
        assert forall|i: int, j: int|
            0 <= i < c.len() && 0 <= j < c.len() && #[trigger] same_rank(c[i], c[j]) implies c[i] == c[j] by {
            assert(same_rank(a[i], a[j]));
        }
        lemma_same_order(c, d);
    }
}

/// The order in which settings are given makes no difference, as long as all
/// strategies are known ones: lists with the same values give the same trials
/// in the same order.
pub proof fn law_order_of_settings_does_not_matter(
    zc: Seq<i32>,
    zm: Seq<i32>,
    zs: Seq<i32>,
    f: Seq<u8>,
    other_zc: Seq<i32>,
    other_zm: Seq<i32>,
    other_zs: Seq<i32>,
    other_f: Seq<u8>,
)
    requires
        forall|i: int| 0 <= i < zs.len() ==> 0 <= #[trigger] zs[i] <= 3,
        other_zc.to_multiset() == zc.to_multiset(),
        other_zm.to_multiset() == zm.to_multiset(),
        other_zs.to_multiset() == zs.to_multiset(),
        other_f.to_multiset() == f.to_multiset(),
    ensures
        by_rank(all_trials(other_zc, other_zm, other_zs, other_f)) == by_rank(all_trials(zc, zm, zs, f)),
{
    let all = all_trials(zc, zm, zs, f);
    let other = all_trials(other_zc, other_zm, other_zs, other_f);
    let a = by_rank(all);
    let b = by_rank(other);
    let any = TrialConfig { zc: 0, zm: 0, zs: 0, f: 0 };
    law_trial_order_is_stable(all, any);
    law_trial_order_is_stable(other, any);
    assert(all.to_multiset() =~= other.to_multiset()) by {
        assert forall|t: TrialConfig| all.to_multiset().count(t) == other.to_multiset().count(t) by {
            lemma_trial_count(zc, zm, zs, f, t);
            lemma_trial_count(other_zc, other_zm, other_zs, other_f, t);
        }
    }
    assert forall|i: int, j: int| 0 <= i <= j < a.len() implies !ranks_below(a[i], a[j]) by {
        law_trials_run_by_rank(all, i, j);
    }
    assert forall|i: int, j: int| 0 <= i <= j < b.len() implies !ranks_below(b[i], b[j]) by {
        law_trials_run_by_rank(other, i, j);
    }
    assert forall|i: int| 0 <= i < a.len() implies 0 <= (#[trigger] a[i]).zs <= 3 by {
        law_every_combination_is_tried(zc, zm, zs, f, a[i]);
        assert(a.contains(a[i]));
        let k = choose|k: int| 0 <= k < zs.len() && zs[k] == a[i].zs;
        assert(0 <= zs[k] <= 3);
    }
    assert forall|i: int, j: int|
        0 <= i < a.len() && 0 <= j < a.len() && #[trigger] same_rank(a[i], a[j]) implies a[i] == a[j] by {
        assert(0 <= a[i].zs <= 3 && 0 <= a[j].zs <= 3);
    }
    lemma_same_order(a, b);
}

}
