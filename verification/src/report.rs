//! The consolidated text report.
//!
//! For every event name, ordered by name, the report prints one sum line
//! `name: total`. When the name was recorded under more than one sub-index,
//! or only under a sub-index other than the default zero, one breakdown line
//! `name[index]: share%` follows per sub-index, ascending, giving that
//! sub-index's share of the name's total to one decimal place. A name
//! recorded only under the default sub-index gets no breakdown: it would
//! repeat the sum line.

use vstd::prelude::*;

use crate::aggregate::{
    aggregate, entries_wf, entry_contrib, entry_count, fits_u64, lemma_entry_count_absent,
    lemma_entry_count_at, lemma_model_count_absent, lemma_model_count_at,
    lemma_model_names_distinct, model_count, model_wf, store_views, total_count, view_model,
    AggregatedView, Entries, GroupsModel,
};
use crate::digits::{append_dec, append_index, append_percent, dec_str, int_str, pct_str};
use crate::order::{lemma_lex_total, lemma_lex_trans, lex_lt};
use crate::registry::Registry;
use crate::store::Key;

verus! {

/// The sum of a group's counts over all its sub-indexes.
pub open spec fn entries_sum(es: Entries) -> nat
    decreases es.len(),
{
    if es.len() == 0 {
        0
    } else {
        entries_sum(es.drop_last()) + es.last().1 as nat
    }
}

/// Whether the per-index breakdown is shown for a group: more than one
/// sub-index, or a single sub-index other than the default zero.
pub open spec fn breakdown_shown(es: Entries) -> bool {
    es.len() > 1 || (es.len() == 1 && es[0].0 != 0)
}

/// One breakdown line: the name, the sub-index in brackets, the share.
pub open spec fn render_item(name: Seq<char>, e: (int, u64), sum: nat) -> Seq<char> {
    name + seq!['['] + int_str(e.0) + seq![']', ':', ' '] + pct_str(e.1 as nat, sum) + seq![
        '%',
        '\n',
    ]
}

/// All breakdown lines of a group, sub-indexes ascending.
pub open spec fn render_items(name: Seq<char>, es: Entries, sum: nat) -> Seq<char>
    decreases es.len(),
{
    if es.len() == 0 {
        Seq::empty()
    } else {
        render_items(name, es.drop_last(), sum) + render_item(name, es.last(), sum)
    }
}

/// A group's report text: the sum line, then the breakdown when shown.
pub open spec fn render_group_text(g: (Seq<char>, Entries)) -> Seq<char> {
    let sum = entries_sum(g.1);
    let head = g.0 + seq![':', ' '] + dec_str(sum) + seq!['\n'];
    if breakdown_shown(g.1) {
        head + render_items(g.0, g.1, sum)
    } else {
        head
    }
}

/// The whole report text: every group's text, names ascending.
pub open spec fn render_model(m: GroupsModel) -> Seq<char>
    decreases m.len(),
{
    if m.len() == 0 {
        Seq::empty()
    } else {
        render_model(m.drop_last()) + render_group_text(m.last())
    }
}

/// A model carries exactly the global counts of the given store mappings.
pub open spec fn counts_match(m: GroupsModel, ss: Seq<Map<Key, u64>>) -> bool {
    forall|k: Key| model_count(m, k) == total_count(ss, k)
}

/// The report model of a sequence of store mappings: the well-formed model
/// that carries exactly their global counts. By
/// [`lemma_model_unique`] there is at most one such model.
pub open spec fn report_model(ss: Seq<Map<Key, u64>>) -> GroupsModel {
    choose|m: GroupsModel| model_wf(m) && counts_match(m, ss)
}

/// Every single count in a group is at most the group's sum.
proof fn lemma_entry_le_sum(es: Entries, j: int)
    requires
        0 <= j < es.len(),
    ensures
        es[j].1 <= entries_sum(es),
    decreases es.len(),
{
    if j == es.len() - 1 {
        assert(es.last() == es[j]);
    } else {
        assert(es.drop_last()[j] == es[j]);
        lemma_entry_le_sum(es.drop_last(), j);
    }
}

/// Entries with pairwise distinct sub-indexes count, for every sub-index,
/// either nothing or one entry's own count; two entry sequences that agree
/// on every such count and are both well-formed are the same sequence.
pub proof fn lemma_entries_unique(ea: Entries, eb: Entries)
    requires
        forall|i: int, j: int| 0 <= i < j < ea.len() ==> ea[i].0 < ea[j].0,
        forall|i: int, j: int| 0 <= i < j < eb.len() ==> eb[i].0 < eb[j].0,
        forall|i: int| 0 <= i < ea.len() ==> 1 <= (#[trigger] ea[i]).1,
        forall|i: int| 0 <= i < eb.len() ==> 1 <= (#[trigger] eb[i]).1,
        forall|q: int| entry_count(ea, q) == entry_count(eb, q),
    ensures
        ea == eb,
    decreases ea.len(),
{
    assert forall|a: int, b: int|
        0 <= a < b < ea.len() implies (#[trigger] ea[a]).0 != (#[trigger] ea[b]).0 by {}
    assert forall|a: int, b: int|
        0 <= a < b < eb.len() implies (#[trigger] eb[a]).0 != (#[trigger] eb[b]).0 by {}
    if ea.len() == 0 && eb.len() == 0 {
        assert(ea =~= eb);
    } else if ea.len() == 0 {
        lemma_entry_count_at(eb, 0, eb[0].0);
        lemma_entry_count_absent(ea, eb[0].0);
    } else if eb.len() == 0 {
        lemma_entry_count_at(ea, 0, ea[0].0);
        lemma_entry_count_absent(eb, ea[0].0);
    } else {
        if ea[0].0 < eb[0].0 {
            lemma_entry_count_at(ea, 0, ea[0].0);
            assert forall|t: int| 0 <= t < eb.len() implies (#[trigger] eb[t]).0 != ea[0].0 by {
                if t > 0 {
                    assert(eb[0].0 < eb[t].0);
                }
            }
            lemma_entry_count_absent(eb, ea[0].0);
            assert(false);
        } else if eb[0].0 < ea[0].0 {
            lemma_entry_count_at(eb, 0, eb[0].0);
            assert forall|t: int| 0 <= t < ea.len() implies (#[trigger] ea[t]).0 != eb[0].0 by {
                if t > 0 {
                    assert(ea[0].0 < ea[t].0);
                }
            }
            lemma_entry_count_absent(ea, eb[0].0);
            assert(false);
        }
        assert(ea[0].0 == eb[0].0);
        lemma_entry_count_at(ea, 0, ea[0].0);
        lemma_entry_count_at(eb, 0, eb[0].0);
        assert(ea[0].1 == eb[0].1);
        let ta = ea.drop_first();
        let tb = eb.drop_first();
        assert forall|q: int| entry_count(ta, q) == entry_count(tb, q) by {
            assert(entry_count(ea, q) == entry_contrib(ea[0], q) + entry_count(ta, q));
            assert(entry_count(eb, q) == entry_contrib(eb[0], q) + entry_count(tb, q));
        }
        lemma_entries_unique(ta, tb);
        assert(ea =~= eb) by {
            assert(ea[0] == eb[0]);
            assert forall|t: int| 0 <= t < ea.len() implies ea[t] == eb[t] by {
                if t > 0 {
                    assert(ea[t] == ta[t - 1]);
                    assert(eb[t] == tb[t - 1]);
                }
            }
        }
    }
}

/// At most one well-formed model carries any given counts: two well-formed
/// models that agree on the count of every key are the same model. This is
/// what makes the report deterministic — and repeated reports identical —
/// however the stores hand their entries out.
pub proof fn lemma_model_unique(a: GroupsModel, b: GroupsModel)
    requires
        model_wf(a),
        model_wf(b),
        forall|k: Key| model_count(a, k) == model_count(b, k),
    ensures
        a == b,
    decreases a.len(),
{
    lemma_model_names_distinct(a);
    lemma_model_names_distinct(b);
    if a.len() == 0 && b.len() == 0 {
        assert(a =~= b);
    } else if a.len() == 0 {
        let k: Key = (b[0].0, b[0].1[0].0);
        lemma_model_count_at(b, 0, k);
        lemma_entry_count_at(b[0].1, 0, k.1);
        lemma_model_count_absent(a, k);
    } else if b.len() == 0 {
        let k: Key = (a[0].0, a[0].1[0].0);
        lemma_model_count_at(a, 0, k);
        lemma_entry_count_at(a[0].1, 0, k.1);
        lemma_model_count_absent(b, k);
    } else {
        if lex_lt(a[0].0, b[0].0) {
            let k: Key = (a[0].0, a[0].1[0].0);
            lemma_model_count_at(a, 0, k);
            lemma_entry_count_at(a[0].1, 0, k.1);
            assert forall|t: int| 0 <= t < b.len() implies (#[trigger] b[t]).0 != k.0 by {
                if t > 0 {
                    lemma_lex_trans(a[0].0, b[0].0, b[t].0);
                }
                lemma_lex_total(b[t].0, a[0].0);
            }
            lemma_model_count_absent(b, k);
            assert(false);
        } else if lex_lt(b[0].0, a[0].0) {
            let k: Key = (b[0].0, b[0].1[0].0);
            lemma_model_count_at(b, 0, k);
            lemma_entry_count_at(b[0].1, 0, k.1);
            assert forall|t: int| 0 <= t < a.len() implies (#[trigger] a[t]).0 != k.0 by {
                if t > 0 {
                    lemma_lex_trans(b[0].0, a[0].0, a[t].0);
                }
                lemma_lex_total(a[t].0, b[0].0);
            }
            lemma_model_count_absent(a, k);
            assert(false);
        }
        lemma_lex_total(a[0].0, b[0].0);
        assert(a[0].0 == b[0].0);
        assert forall|q: int| entry_count(a[0].1, q) == entry_count(b[0].1, q) by {
            let k: Key = (a[0].0, q);
            lemma_model_count_at(a, 0, k);
            lemma_model_count_at(b, 0, k);
        }
        lemma_entries_unique(a[0].1, b[0].1);
        assert(a[0] == b[0]);
        let ta = a.drop_first();
        let tb = b.drop_first();
        assert forall|k: Key| model_count(ta, k) == model_count(tb, k) by {
            assert(model_count(a, k) == crate::aggregate::group_contrib(a[0], k) + model_count(
                ta,
                k,
            ));
            assert(model_count(b, k) == crate::aggregate::group_contrib(b[0], k) + model_count(
                tb,
                k,
            ));
        }
        lemma_model_unique(ta, tb);
        assert(a =~= b) by {
            assert forall|t: int| 0 <= t < a.len() implies a[t] == b[t] by {
                if t > 0 {
                    assert(a[t] == ta[t - 1]);
                    assert(b[t] == tb[t - 1]);
                }
            }
        }
    }
}

/// Before any event was ever recorded — no store registered — the report is
/// empty.
pub proof fn lemma_report_empty(ss: Seq<Map<Key, u64>>)
    requires
        ss.len() == 0,
    ensures
        render_model(report_model(ss)) == Seq::<char>::empty(),
{
    let empty_model: GroupsModel = Seq::empty();
    assert(model_wf(empty_model));
    assert(counts_match(empty_model, ss)) by {
        assert forall|k: Key| model_count(empty_model, k) == total_count(ss, k) by {}
    }
    assert(model_wf(report_model(ss)) && counts_match(report_model(ss), ss));
    lemma_model_unique(report_model(ss), empty_model);
}

/// Render the consolidated view as the report's text.
#[verifier::rlimit(60)]
pub fn render(v: &AggregatedView) -> (r: String)
    requires
        model_wf(view_model(*v)),
    ensures
        r@ == render_model(view_model(*v)),
{
    let ghost m = view_model(*v);
    let mut out = String::new();
    proof {
        reveal_strlit(": ");
        reveal_strlit("\n");
        reveal_strlit("[");
        reveal_strlit("]: ");
        reveal_strlit("%\n");
        assert(m.take(0) =~= Seq::empty());
    }
    let glen = v.groups.len();
    let mut i: usize = 0;
    #[verifier::loop_isolation(false)]
    while i < glen
        invariant
            i <= glen,
            out@ == render_model(m.take(i as int)),
        decreases glen - i,
    {
        let g = &v.groups[i];
        let ghost es = m[i as int].1;
        proof {
            assert(m[i as int] == (g.name@, crate::aggregate::items_model(g.items@)));
            assert(entries_wf(es));
        }
        let ilen = g.items.len();
        let mut sum: u128 = 0;
        let mut j: usize = 0;
        proof {
            assert(es.take(0) =~= Seq::empty());
        }
        #[verifier::loop_isolation(false)]
        while j < ilen
            invariant
                j <= ilen,
                sum as nat == entries_sum(es.take(j as int)),
                sum as nat <= (j as nat) * (u64::MAX as nat),
            decreases ilen - j,
        {
            proof {
                assert(es.take(j as int + 1).drop_last() =~= es.take(j as int));
                assert(es.take(j as int + 1).last() == es[j as int]);
                assert(es[j as int] == (g.items@[j as int].index as int, g.items@[j as int].count));
                assert((j as nat) * (u64::MAX as nat) + (u64::MAX as nat) == ((j + 1) as nat) * (
                u64::MAX as nat)) by (nonlinear_arith);
                assert(((j + 1) as nat) * (u64::MAX as nat) <= (u128::MAX as nat)) by {
                    assert((j + 1) as nat <= u64::MAX as nat);
                    assert(((j + 1) as nat) * (u64::MAX as nat) <= (u64::MAX as nat) * (
                    u64::MAX as nat)) by (nonlinear_arith)
                        requires
                            (j + 1) as nat <= u64::MAX as nat,
                    ;
                    assert((u64::MAX as nat) * (u64::MAX as nat) <= u128::MAX as nat);
                }
            }
            sum = sum + (g.items[j].count as u128);
            j = j + 1;
        }
        proof {
            assert(es.take(ilen as int) =~= es);
            assert(1 <= entries_sum(es)) by {
                lemma_entry_le_sum(es, 0);
            }
        }
        out.append(g.name.as_str());
        out.append(": ");
        append_dec(&mut out, sum);
        out.append("\n");
        let show = ilen > 1 || g.items[0].index != 0;
        proof {
            assert(es[0] == (g.items@[0].index as int, g.items@[0].count));
            assert(show == breakdown_shown(es));
        }
        let ghost line_base = out@;
        if show {
            let mut j2: usize = 0;
            proof {
                assert(es.take(0) =~= Seq::empty());
                assert(out@ =~= line_base + render_items(g.name@, es.take(0), entries_sum(es)));
            }
            #[verifier::loop_isolation(false)]
            while j2 < ilen
                invariant
                    j2 <= ilen,
                    out@ == line_base + render_items(g.name@, es.take(j2 as int), entries_sum(es)),
                decreases ilen - j2,
            {
                out.append(g.name.as_str());
                out.append("[");
                append_index(&mut out, g.items[j2].index);
                out.append("]: ");
                proof {
                    assert(es[j2 as int] == (
                        g.items@[j2 as int].index as int,
                        g.items@[j2 as int].count,
                    ));
                    lemma_entry_le_sum(es, j2 as int);
                }
                append_percent(&mut out, g.items[j2].count, sum);
                out.append("%\n");
                proof {
                    assert(es.take(j2 as int + 1).drop_last() =~= es.take(j2 as int));
                    assert(es.take(j2 as int + 1).last() == es[j2 as int]);
                    assert(out@ =~= line_base + render_items(
                        g.name@,
                        es.take(j2 as int + 1),
                        entries_sum(es),
                    ));
                }
                j2 = j2 + 1;
            }
            proof {
                assert(es.take(ilen as int) =~= es);
            }
        }
        proof {
            assert(m.take(i as int + 1).drop_last() =~= m.take(i as int));
            assert(m.take(i as int + 1).last() == m[i as int]);
            assert(out@ =~= render_model(m.take(i as int + 1)));
        }
        i = i + 1;
    }
    proof {
        assert(m.take(glen as int) =~= m);
    }
    out
}

/// Produce the whole report for every store the registry holds: exactly the
/// text of the one well-formed consolidated view whose counts are, for every
/// key, the sums over all registered stores.
pub fn report_string(reg: &Registry) -> (r: String)
    requires
        reg.wf(),
        fits_u64(reg@),
    ensures
        r@ == render_model(report_model(reg@)),
{
    let stores = reg.enumerate();
    proof {
        assert(store_views(stores@) =~= reg@);
    }
    let view = aggregate(stores);
    let ghost built = view_model(view);
    proof {
        assert(model_wf(built) && counts_match(built, reg@));
        assert(model_wf(report_model(reg@)) && counts_match(report_model(reg@), reg@));
        lemma_model_unique(report_model(reg@), built);
    }
    render(&view)
}

} // verus!
