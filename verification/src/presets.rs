//! Which trials are planned at each level, and in which order, setting by
//! setting.
use crate::models::{CliArgs, TrialConfig};
use crate::prepare::{list_or, trials_for};
use crate::trials::{
    all_trials, by_rank, filter_trials, for_each, law_every_combination_is_tried, law_trial_order_is_stable,
    law_trials_run_by_rank, memory_trials, preset_f, preset_zc, preset_zm, preset_zs, strategy_trials, zopfli_filters,
    zopfli_levels,
};
use vstd::prelude::*;

verus! {

/// No setting of the encoder is given.
pub open spec fn gives_no_settings(cli: &CliArgs) -> bool {
    cli.zc is None && cli.zm is None && cli.zs is None && cli.f is None
}

/// The strategy makes a difference at the compression level: strategies 0
/// and 1 always do, strategies 2 and 3 at level 1 alone.
pub open spec fn is_worthwhile(t: TrialConfig) -> bool {
    t.zs == 0 || t.zs == 1 || (t.zs == 2 || t.zs == 3) && t.zc == 1
}

/// What zlib tries at each level when no settings are given: the lowest
/// levels one trial, level 2 the two strategies that matter with two filters,
/// level 4 with all six filters, level 6 with all compression levels too;
/// and levels 3, 5 and 7 what the level below does, with memory levels 8
/// and 9. Nothing is tried twice.
pub proof fn law_levels_of_zlib(cli: &CliArgs, color_type: u8, bit_depth: u8)
    requires
        cli.zi == 1,
        gives_no_settings(cli),
    ensures
        ({
            let plan = trials_for(cli, color_type, bit_depth);
            let few_bits = color_type == 3 || bit_depth < 8;
            &&& plan.no_duplicates()
            &&& cli.opt_level <= 1 ==> forall|t: TrialConfig| #[trigger]
                plan.contains(t) <==> t.zc == 9 && t.zm == 8 && t.zs == 0 && t.f == (if few_bits { 0u8 } else { 5 })
            &&& cli.opt_level == 2 ==> forall|t: TrialConfig| #[trigger]
                plan.contains(t) <==> t.zc == 9 && t.zm == 8 && 0 <= t.zs <= 1 && (t.f == 0 || t.f == 5)
            &&& cli.opt_level == 3 ==> forall|t: TrialConfig| #[trigger]
                plan.contains(t) <==> t.zc == 9 && 8 <= t.zm <= 9 && 0 <= t.zs <= 1 && (t.f == 0 || t.f == 5)
            &&& cli.opt_level == 4 ==> forall|t: TrialConfig| #[trigger]
                plan.contains(t) <==> t.zc == 9 && t.zm == 8 && 0 <= t.zs <= 1 && t.f <= 5
            &&& cli.opt_level == 5 ==> forall|t: TrialConfig| #[trigger]
                plan.contains(t) <==> t.zc == 9 && 8 <= t.zm <= 9 && 0 <= t.zs <= 1 && t.f <= 5
            &&& cli.opt_level == 6 ==> forall|t: TrialConfig| #[trigger]
                plan.contains(t) <==> 1 <= t.zc <= 9 && t.zm == 8 && is_worthwhile(t) && t.f <= 5
            &&& cli.opt_level == 7 ==> forall|t: TrialConfig| #[trigger]
                plan.contains(t) <==> 1 <= t.zc <= 9 && 8 <= t.zm <= 9 && is_worthwhile(t) && t.f <= 5
            &&& cli.opt_level > 7 ==> forall|t: TrialConfig| #[trigger]
                plan.contains(t) <==> t.zc == 9 && t.zm == 8 && 0 <= t.zs <= 1 && (t.f == 0 || t.f == 5)
        }),
{
    let plan = trials_for(cli, color_type, bit_depth);
    law_nothing_is_tried_twice(cli, color_type, bit_depth);
    assert forall|t: TrialConfig| #[trigger]
        plan.contains(t) <==> (t.zc == 9 || 6 <= cli.opt_level <= 7 && 1 <= t.zc <= 9) && (t.zm == 8 || t.zm == 9 && (
        cli.opt_level == 3 || cli.opt_level == 5 || cli.opt_level == 7)) && (t.zs == 0 || cli.opt_level >= 2 && 1
            <= t.zs <= 3) && is_usual_filter(cli.opt_level, color_type, bit_depth, t.f) && !((t.zs == 2 || t.zs == 3)
            && t.zc > 1) by {
        law_given_settings_are_tried(cli, color_type, bit_depth, t);
    }
}

/// What Zöpfli tries at each level when no settings are given: one trial, of
/// the level's own number of rounds, with adaptive filters, but for the
/// lowest level, which takes another filter, and the highest, which takes
/// both.
pub proof fn law_levels_of_zopfli(cli: &CliArgs, color_type: u8, bit_depth: u8)
    requires
        cli.zi == 2,
        gives_no_settings(cli),
    ensures
        ({
            let plan = trials_for(cli, color_type, bit_depth);
            &&& plan.no_duplicates()
            &&& forall|t: TrialConfig| #[trigger]
                plan.contains(t) <==> {
                    &&& t.zm == 8 && t.zs == 0
                    &&& t.zc == (if 1 <= cli.opt_level <= 7 { cli.opt_level as int } else { 2 })
                    &&& t.f == 3 && (cli.opt_level == 1 || cli.opt_level == 7) || t.f == 5 && cli.opt_level != 1
                }
        }),
{
    let plan = trials_for(cli, color_type, bit_depth);
    law_nothing_is_tried_twice(cli, color_type, bit_depth);
    assert forall|t: TrialConfig| #[trigger]
        plan.contains(t) <==> {
            &&& t.zm == 8 && t.zs == 0
            &&& t.zc == (if 1 <= cli.opt_level <= 7 { cli.opt_level as int } else { 2 })
            &&& t.f == 3 && (cli.opt_level == 1 || cli.opt_level == 7) || t.f == 5 && cli.opt_level != 1
        } by {
        law_given_settings_are_tried_by_zopfli(cli, color_type, bit_depth, t);
    }
}

/// The filter is one that zlib tries at the level when no filters are given.
pub open spec fn is_usual_filter(level: u8, color_type: u8, bit_depth: u8, f: u8) -> bool {
    if level <= 1 {
        f == (if color_type == 3 || bit_depth < 8 { 0u8 } else { 5 })
    } else if 4 <= level <= 7 {
        f <= 5
    } else {
        f == 0 || f == 5
    }
}

/// Settings that are given take the place of those of the level, each for
/// itself: every combination of the values that are given, and of the values
/// that the level has for the other settings, is tried, and nothing else is.
/// Only strategies 2 and 3 are left out above compression level 1.
pub proof fn law_given_settings_are_tried(cli: &CliArgs, color_type: u8, bit_depth: u8, t: TrialConfig)
    requires
        cli.zi == 1,
    ensures
        trials_for(cli, color_type, bit_depth).contains(t) <==> {
            &&& match cli.zc {
                Some(l) => l@.contains(t.zc),
                None => t.zc == 9 || 6 <= cli.opt_level <= 7 && 1 <= t.zc <= 9,
            }
            &&& match cli.zm {
                Some(l) => l@.contains(t.zm),
                None => t.zm == 8 || t.zm == 9 && (cli.opt_level == 3 || cli.opt_level == 5 || cli.opt_level == 7),
            }
            &&& match cli.zs {
                Some(l) => l@.contains(t.zs),
                None => t.zs == 0 || cli.opt_level >= 2 && 1 <= t.zs <= 3,
            }
            &&& match cli.f {
                Some(l) => l@.contains(t.f),
                None => is_usual_filter(cli.opt_level, color_type, bit_depth, t.f),
            }
            &&& !((t.zs == 2 || t.zs == 3) && t.zc > 1)
        },
{
    lemma_lists(cli.opt_level, color_type, bit_depth);
    law_every_combination_is_tried(
        list_or(cli.zc, preset_zc(cli.opt_level as int)),
        list_or(cli.zm, preset_zm(cli.opt_level as int)),
        list_or(cli.zs, preset_zs(cli.opt_level as int)),
        list_or(cli.f, preset_f(cli.opt_level as int, color_type, bit_depth)),
        t,
    );
}

/// Zöpfli has compression levels and filters, and those that are given take
/// the place of those of the level. Strategies and memory levels mean nothing
/// to it.
pub proof fn law_given_settings_are_tried_by_zopfli(cli: &CliArgs, color_type: u8, bit_depth: u8, t: TrialConfig)
    requires
        cli.zi == 2,
    ensures
        trials_for(cli, color_type, bit_depth).contains(t) <==> {
            &&& t.zm == 8 && t.zs == 0
            &&& match cli.zc {
                Some(l) => l@.contains(t.zc),
                None => t.zc == (if 1 <= cli.opt_level <= 7 { cli.opt_level as int } else { 2 }),
            }
            &&& match cli.f {
                Some(l) => l@.contains(t.f),
                None => t.f == 3 && (cli.opt_level == 1 || cli.opt_level == 7) || t.f == 5 && cli.opt_level != 1,
            }
        },
{
    lemma_lists(cli.opt_level, color_type, bit_depth);
    lemma_single(8);
    lemma_single(0);
    law_every_combination_is_tried(
        list_or(cli.zc, zopfli_levels(cli.opt_level as int)),
        seq![8],
        seq![0],
        list_or(cli.f, zopfli_filters(cli.opt_level as int)),
        t,
    );
}

/// No trial is planned twice, as long as no setting is given twice.
pub proof fn law_nothing_is_tried_twice(cli: &CliArgs, color_type: u8, bit_depth: u8)
    requires
        cli.zc matches Some(l) ==> l@.no_duplicates(),
        cli.zm matches Some(l) ==> l@.no_duplicates(),
        cli.zs matches Some(l) ==> l@.no_duplicates(),
        cli.f matches Some(l) ==> l@.no_duplicates(),
    ensures
        trials_for(cli, color_type, bit_depth).no_duplicates(),
{
    let level = cli.opt_level as int;
    lemma_lists_distinct(cli.opt_level, color_type, bit_depth);
    let t = TrialConfig { zc: 0, zm: 0, zs: 0, f: 0 };
    if cli.zi == 2 {
        law_every_combination_is_tried(
            list_or(cli.zc, zopfli_levels(level)),
            seq![8],
            seq![0],
            list_or(cli.f, zopfli_filters(level)),
            t,
        );
    } else {
        law_every_combination_is_tried(
            list_or(cli.zc, preset_zc(level)),
            list_or(cli.zm, preset_zm(level)),
            list_or(cli.zs, preset_zs(level)),
            list_or(cli.f, preset_f(level, color_type, bit_depth)),
            t,
        );
    }
}

/// What is in the lists of the presets.
proof fn lemma_lists(level: u8, color_type: u8, bit_depth: u8)
    ensures
        forall|x: i32| #[trigger]
            preset_zc(level as int).contains(x) <==> x == 9 || 6 <= level <= 7 && 1 <= x <= 9,
        forall|x: i32| #[trigger]
            preset_zm(level as int).contains(x) <==> x == 8 || x == 9 && (level == 3 || level == 5 || level == 7),
        forall|x: i32| #[trigger] preset_zs(level as int).contains(x) <==> x == 0 || level >= 2 && 1 <= x <= 3,
        forall|x: u8| #[trigger]
            preset_f(level as int, color_type, bit_depth).contains(x) <==> is_usual_filter(
                level,
                color_type,
                bit_depth,
                x,
            ),
        forall|x: i32| #[trigger]
            zopfli_levels(level as int).contains(x) <==> x == (if 1 <= level <= 7 { level as int } else { 2 }),
        forall|x: u8| #[trigger]
            zopfli_filters(level as int).contains(x) <==> x == 3 && (level == 1 || level == 7) || x == 5 && level != 1,
{
    let zc = preset_zc(level as int);
    let zm = preset_zm(level as int);
    let zs = preset_zs(level as int);
    let f = preset_f(level as int, color_type, bit_depth);
    let zopfli_zc = zopfli_levels(level as int);
    let zopfli_f = zopfli_filters(level as int);
    assert forall|x: i32| #[trigger] zc.contains(x) <==> x == 9 || 6 <= level <= 7 && 1 <= x <= 9 by {
        assert(zc.len() == 1 ==> zc[0] == 9);
        assert(zc.len() > 1 && 1 <= x <= 9 ==> zc[x - 1] == x);
    }
    assert forall|x: i32| #[trigger] zm.contains(x) <==> x == 8 || x == 9 && (level == 3 || level == 5 || level
        == 7) by {
        assert(zm[0] == 8);
        assert(zm.len() > 1 ==> zm[1] == 9);
    }
    assert forall|x: i32| #[trigger] zs.contains(x) <==> x == 0 || level >= 2 && 1 <= x <= 3 by {
        assert(zs[0] == 0);
        assert(zs.len() > 1 && 0 <= x <= 3 ==> zs[x as int] == x);
    }
    assert forall|x: u8| #[trigger] f.contains(x) <==> is_usual_filter(level, color_type, bit_depth, x) by {
        if level <= 1 {
            assert(f[0] == (if color_type == 3 || bit_depth < 8 { 0u8 } else { 5 }));
        } else if 4 <= level <= 7 {
            assert(x <= 5 ==> f[x as int] == x);
        } else {
            assert(f[0] == 0 && f[1] == 5);
        }
    }
    assert forall|x: i32| #[trigger] zopfli_zc.contains(x) <==> x == (if 1 <= level <= 7 {
        level as int
    } else {
        2
    }) by {
        assert(zopfli_zc[0] == (if 1 <= level <= 7 { level as int } else { 2 }));
    }
    assert forall|x: u8| #[trigger] zopfli_f.contains(x) <==> x == 3 && (level == 1 || level == 7) || x == 5 && level
        != 1 by {
        assert(zopfli_f[0] == (if level == 1 || level == 7 { 3u8 } else { 5 }));
        assert(zopfli_f.len() > 1 ==> zopfli_f[1] == 5);
    }
}

/// The lists of the presets hold nothing twice.
proof fn lemma_lists_distinct(level: u8, color_type: u8, bit_depth: u8)
    ensures
        preset_zc(level as int).no_duplicates(),
        preset_zm(level as int).no_duplicates(),
        preset_zs(level as int).no_duplicates(),
        preset_f(level as int, color_type, bit_depth).no_duplicates(),
        zopfli_levels(level as int).no_duplicates(),
        zopfli_filters(level as int).no_duplicates(),
{
    let zc = preset_zc(level as int);
    let zs = preset_zs(level as int);
    let f = preset_f(level as int, color_type, bit_depth);
    assert(forall|i: int| 0 <= i < zc.len() && zc.len() > 1 ==> #[trigger] zc[i] == i + 1);
    assert(forall|i: int| 0 <= i < zs.len() && zs.len() > 1 ==> #[trigger] zs[i] == i);
    assert(forall|i: int| 0 <= i < f.len() && f.len() > 2 ==> #[trigger] f[i] == i);
}

/// A list of one element.
proof fn lemma_single(n: i32)
    ensures
        forall|s: Seq<i32>, x: i32| s == seq![n] ==> (#[trigger] s.contains(x) <==> x == n),
{
    assert forall|s: Seq<i32>, x: i32| s == seq![n] implies (#[trigger] s.contains(x) <==> x == n) by {
        assert(s[0] == n);
    }
}

proof fn lemma_for_each_concat<A>(s: Seq<A>, t: Seq<A>, g: spec_fn(A) -> Seq<TrialConfig>)
    ensures
        for_each(s + t, g) == for_each(s, g) + for_each(t, g),
    decreases t.len(),
{
    if t.len() == 0 {
        assert(s + t =~= s);
        assert(for_each(s, g) + for_each(t, g) =~= for_each(s, g));
    } else {
        assert((s + t).drop_last() =~= s + t.drop_last());
        lemma_for_each_concat(s, t.drop_last(), g);
        assert(for_each(s + t, g) =~= for_each(s, g) + for_each(t, g));
    }
}

proof fn lemma_for_each_len<A>(s: Seq<A>, g: spec_fn(A) -> Seq<TrialConfig>, k: nat)
    requires
        forall|i: int| 0 <= i < s.len() ==> (#[trigger] g(s[i])).len() == k,
    ensures
        for_each(s, g).len() == s.len() * k,
    decreases s.len(),
{
    if s.len() > 0 {
        let t = s.drop_last();
        assert forall|i: int| 0 <= i < t.len() implies (#[trigger] g(t[i])).len() == k by {
            assert(t[i] == s[i]);
        }
        lemma_for_each_len(t, g, k);
        assert(g(s[s.len() - 1]).len() == k);
        assert(s.len() * k == t.len() * k + k) by (nonlinear_arith)
            requires
                s.len() == t.len() + 1,
        ;
    } else {
        assert(0 * k == 0);
    }
}

/// The number of trials of one compression level and one memory level, for
/// all four strategies.
proof fn lemma_four_strategies(zc: i32, zm: i32, f: Seq<u8>)
    requires
        zc >= 1,
    ensures
        strategy_trials(zc, zm, seq![0, 1, 2, 3], f).len() == (if zc == 1 { 4 * f.len() } else { 2 * f.len() }),
{
    let g = |x: i32| filter_trials(zc, zm, x, f);
    let low = seq![0i32, 1];
    let high = seq![2i32, 3];
    assert(seq![0i32, 1, 2, 3] =~= low + high);
    lemma_for_each_concat(low, high, g);
    lemma_for_each_len(low, g, f.len());
    lemma_for_each_len(high, g, if zc == 1 { f.len() } else { 0 });
}

/// The number of trials with the given lists and all four strategies at the
/// highest compression level alone.
proof fn lemma_one_level(zm: Seq<i32>, f: Seq<u8>)
    ensures
        all_trials(seq![9], zm, seq![0, 1, 2, 3], f).len() == zm.len() * (2 * f.len()),
{
    lemma_memory(9, zm, f);
    let g = |x: i32| memory_trials(x, zm, seq![0, 1, 2, 3], f);
    let k = zm.len() * (2 * f.len());
    lemma_for_each_len(seq![9i32], g, k);
    assert(1 * k == k) by (nonlinear_arith);
}

proof fn lemma_memory(zc: i32, zm: Seq<i32>, f: Seq<u8>)
    requires
        zc >= 1,
    ensures
        memory_trials(zc, zm, seq![0, 1, 2, 3], f).len() == zm.len() * (if zc == 1 {
            4 * f.len()
        } else {
            2 * f.len()
        }),
{
    let g = |x: i32| strategy_trials(zc, x, seq![0, 1, 2, 3], f);
    let k = if zc == 1 { 4 * f.len() } else { 2 * f.len() };
    assert forall|i: int| 0 <= i < zm.len() implies (#[trigger] g(zm[i])).len() == k by {
        lemma_four_strategies(zc, zm[i], f);
    }
    lemma_for_each_len(zm, g, k);
}

/// The number of trials with the given lists, all four strategies and all
/// compression levels.
proof fn lemma_all_levels(zm: Seq<i32>, f: Seq<u8>)
    ensures
        all_trials(seq![1, 2, 3, 4, 5, 6, 7, 8, 9], zm, seq![0, 1, 2, 3], f).len() == zm.len() * (4 * f.len()) + 8 * (
        zm.len() * (2 * f.len())),
{
    let g = |x: i32| memory_trials(x, zm, seq![0, 1, 2, 3], f);
    let low = seq![1i32];
    let high = seq![2i32, 3, 4, 5, 6, 7, 8, 9];
    assert(seq![1i32, 2, 3, 4, 5, 6, 7, 8, 9] =~= low + high);
    lemma_for_each_concat(low, high, g);
    lemma_memory(1, zm, f);
    let k = zm.len() * (4 * f.len());
    lemma_for_each_len(low, g, k);
    assert(1 * k == k) by (nonlinear_arith);
    assert forall|i: int| 0 <= i < high.len() implies (#[trigger] g(high[i])).len() == zm.len() * (2 * f.len()) by {
        assert(high[i] == i + 2);
        lemma_memory(high[i], zm, f);
    }
    lemma_for_each_len(high, g, zm.len() * (2 * f.len()));
}

/// Each level tries more than the level two below it, and never less than
/// the level below, in numbers: 1, 1, 4, 8, 12, 24, 120 and 240 trials.
pub proof fn law_levels_grow(cli: &CliArgs, color_type: u8, bit_depth: u8)
    requires
        cli.zi == 1,
        gives_no_settings(cli),
        cli.opt_level <= 7,
    ensures
        trials_for(cli, color_type, bit_depth).len() == (match cli.opt_level {
            0 => 1int,
            1 => 1,
            2 => 4,
            3 => 8,
            4 => 12,
            5 => 24,
            6 => 120,
            _ => 240,
        }),
{
    broadcast use vstd::seq_lib::group_to_multiset_ensures;

    let level = cli.opt_level as int;
    let zc = preset_zc(level);
    let zm = preset_zm(level);
    let zs = preset_zs(level);
    let f = preset_f(level, color_type, bit_depth);
    let all = all_trials(zc, zm, zs, f);
    law_trial_order_is_stable(all, TrialConfig { zc: 0, zm: 0, zs: 0, f: 0 });
    assert(by_rank(all).to_multiset().len() == by_rank(all).len());
    assert(all.to_multiset().len() == all.len());
    if level <= 1 {
        lemma_for_each_len(zs, |x: i32| filter_trials(9, 8, x, f), 1);
        lemma_for_each_len(zm, |x: i32| strategy_trials(9, x, zs, f), 1);
        lemma_for_each_len(zc, |x: i32| memory_trials(x, zm, zs, f), 1);
        assert(all.len() == 1);
    } else if level >= 6 {
        lemma_all_levels(zm, f);
        assert(f.len() == 6);
        assert(zm.len() == 1 || zm.len() == 2);
        assert(zm.len() * (4 * f.len()) == zm.len() * 24 && zm.len() * (2 * f.len()) == zm.len() * 12);
    } else {
        lemma_one_level(zm, f);
        assert(zm.len() == 1 || zm.len() == 2);
        assert(f.len() == 2 || f.len() == 6);
        assert(zm.len() * (2 * f.len()) == zm.len() * 4 || zm.len() * (2 * f.len()) == zm.len() * 12);
    }
}

/// The order of the trials: higher compression levels first; then strategies
/// 1, 0, 2 and 3, in this order; then higher memory levels, and then higher
/// filters.
pub proof fn law_order_of_trials(cli: &CliArgs, color_type: u8, bit_depth: u8, i: int, j: int)
    requires
        0 <= i < j < trials_for(cli, color_type, bit_depth).len(),
    ensures
        ({
            let a = trials_for(cli, color_type, bit_depth)[i];
            let b = trials_for(cli, color_type, bit_depth)[j];
            &&& a.zc >= b.zc
            &&& a.zc == b.zc && a.zs != b.zs && 0 <= a.zs <= 3 && 0 <= b.zs <= 3 ==> a.zs == 1 || a.zs == 0 && b.zs
                != 1 || a.zs == 2 && b.zs == 3
            &&& a.zc == b.zc && a.zs == b.zs ==> a.zm >= b.zm
            &&& a.zc == b.zc && a.zs == b.zs && a.zm == b.zm ==> a.f >= b.f
        }),
{
    let level = cli.opt_level as int;
    let all = if cli.zi == 2 {
        all_trials(
            list_or(cli.zc, zopfli_levels(level)),
            seq![8],
            seq![0],
            list_or(cli.f, zopfli_filters(level)),
        )
    } else {
        all_trials(
            list_or(cli.zc, preset_zc(level)),
            list_or(cli.zm, preset_zm(level)),
            list_or(cli.zs, preset_zs(level)),
            list_or(cli.f, preset_f(level, color_type, bit_depth)),
        )
    };
    assert(by_rank(all) == trials_for(cli, color_type, bit_depth));
    law_trials_run_by_rank(all, i, j);
}

}
