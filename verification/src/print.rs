//! Printing a test paper: its questions grouped into sections by question type.
use vstd::prelude::*;
use crate::bank::QuestionRow;
use crate::text::str_eq;

verus! {

broadcast use vstd::string::group_string_axioms;

/// One section of a printed paper: the questions of one type, in paper order.
pub struct TypeGroup {
    pub qtype: String,
    pub questions: Vec<QuestionRow>,
}

/// The question types among the first `n` questions, in order of first appearance.
pub open spec fn types_upto(qs: Seq<QuestionRow>, n: int) -> Seq<Seq<char>>
    decreases n,
{
    if n <= 0 {
        Seq::empty()
    } else {
        let p = types_upto(qs, n - 1);
        if p.contains(qs[n - 1].qtype@) { p } else { p.push(qs[n - 1].qtype@) }
    }
}

/// The questions of type `t` among the first `n`, in order.
pub open spec fn members(qs: Seq<QuestionRow>, t: Seq<char>, n: int) -> Seq<QuestionRow>
    decreases n,
{
    if n <= 0 {
        Seq::empty()
    } else if qs[n - 1].qtype@ == t {
        members(qs, t, n - 1).push(qs[n - 1])
    } else {
        members(qs, t, n - 1)
    }
}

/// The sections of a paper: one per question type, in order of first appearance, each
/// with the questions of that type in paper order.
pub open spec fn groups_ok(qs: Seq<QuestionRow>, gs: Seq<TypeGroup>) -> bool {
    let ts = types_upto(qs, qs.len() as int);
    &&& gs.len() == ts.len()
    &&& forall|g: int| 0 <= g < gs.len() ==> (#[trigger] gs[g]).qtype@ == ts[g]
        && gs[g].questions@ == members(qs, ts[g], qs.len() as int)
}

proof fn lemma_members_other(qs: Seq<QuestionRow>, t: Seq<char>, n: int)
    requires
        0 <= n,
        !types_upto(qs, n).contains(t),
    ensures
        members(qs, t, n).len() == 0,
    decreases n,
{
    if n > 0 {
        let p = types_upto(qs, n - 1);
        assert(!p.contains(t)) by {
            if p.contains(t) {
                let k = choose|k: int| 0 <= k < p.len() && p[k] == t;
                if !p.contains(qs[n - 1].qtype@) {
                    assert(p.push(qs[n - 1].qtype@)[k] == t);
                }
            }
        }
        lemma_members_other(qs, t, n - 1);
        if qs[n - 1].qtype@ == t {
            if !p.contains(t) {
                assert(types_upto(qs, n) == p.push(t));
                assert(types_upto(qs, n)[p.len() as int] == t);
            }
        }
    }
}

proof fn lemma_types_distinct(qs: Seq<QuestionRow>, n: int)
    requires
        0 <= n,
    ensures
        forall|a: int, b: int| 0 <= a < b < types_upto(qs, n).len()
            ==> #[trigger] types_upto(qs, n)[a] != #[trigger] types_upto(qs, n)[b],
    decreases n,
{
    if n > 0 {
        lemma_types_distinct(qs, n - 1);
        let p = types_upto(qs, n - 1);
        let ts = types_upto(qs, n);
        if !p.contains(qs[n - 1].qtype@) {
            assert forall|a: int, b: int| 0 <= a < b < ts.len() implies #[trigger] ts[a] != #[trigger] ts[b] by {
                if b == p.len() {
                    assert(ts[a] == p[a]);
                    if ts[a] == ts[b] {
                        assert(p.contains(qs[n - 1].qtype@));
                    }
                } else {
                    assert(ts[a] == p[a] && ts[b] == p[b]);
                }
            }
        }
    }
}

/// Groups the questions of a paper into sections by type (see [`groups_ok`]).
pub fn group_by_type(qs: Vec<QuestionRow>) -> (gs: Vec<TypeGroup>)
    ensures
        groups_ok(qs@, gs@),
{
    let ghost all = qs@;
    let n = qs.len();
    let mut rest = qs;
    let mut gs: Vec<TypeGroup> = Vec::new();
    let mut i: usize = 0;
    while rest.len() > 0
        invariant
            i + rest@.len() == all.len(),
            all.len() == n,
            rest@ == all.skip(i as int),
            gs@.len() == types_upto(all, i as int).len(),
            forall|g: int| 0 <= g < gs@.len() ==> (#[trigger] gs@[g]).qtype@ == types_upto(all, i as int)[g]
                && gs@[g].questions@ == members(all, types_upto(all, i as int)[g], i as int),
        decreases rest@.len(),
    {
        let q = rest.remove(0);
        proof {
            assert(q == all[i as int]);
            assert(rest@ =~= all.skip(i + 1));
            lemma_types_distinct(all, i as int);
        }
        let ghost ts = types_upto(all, i as int);
        let ghost g0 = gs@;
        let mut g: usize = 0;
        let mut found = false;
        while g < gs.len() && !found
            invariant
                0 <= g <= gs@.len(),
                gs@ == g0,
                !found ==> forall|x: int| 0 <= x < g ==> (#[trigger] gs@[x]).qtype@ != q.qtype@,
                found ==> g < gs@.len() && gs@[g as int].qtype@ == q.qtype@,
            decreases gs@.len() - g + if found { 0int } else { 1int },
        {
            if str_eq(gs[g].qtype.as_str(), q.qtype.as_str()) {
                found = true;
            } else {
                g += 1;
            }
        }
        if found {
            let mut grp = gs.remove(g);
            grp.questions.push(q);
            gs.insert(g, grp);
            proof {
                assert(ts.contains(q.qtype@)) by {
                    assert(ts[g as int] == q.qtype@);
                }
                assert(types_upto(all, i + 1) == ts);
                assert forall|x: int| 0 <= x < gs@.len() implies (#[trigger] gs@[x]).qtype@ == types_upto(all, i + 1)[x]
                    && gs@[x].questions@ == members(all, types_upto(all, i + 1)[x], i + 1) by {
                    if x != g {
                        assert(gs@[x] == g0[x]);
                        assert(ts[x] != ts[g as int]);
                    }
                }
            }
        } else {
            let mut v: Vec<QuestionRow> = Vec::new();
            let t = q.qtype.clone();
            v.push(q);
            gs.push(TypeGroup { qtype: t, questions: v });
            proof {
                assert(!ts.contains(q.qtype@)) by {
                    if ts.contains(q.qtype@) {
                        let k = choose|k: int| 0 <= k < ts.len() && ts[k] == q.qtype@;
                        assert(g0[k].qtype@ != q.qtype@);
                    }
                }
                assert(types_upto(all, i + 1) == ts.push(q.qtype@));
                lemma_members_other(all, q.qtype@, i as int);
                assert forall|x: int| 0 <= x < gs@.len() implies (#[trigger] gs@[x]).qtype@ == types_upto(all, i + 1)[x]
                    && gs@[x].questions@ == members(all, types_upto(all, i + 1)[x], i + 1) by {
                    if x < g0.len() {
                        assert(gs@[x] == g0[x]);
                        assert(ts[x] != q.qtype@) by {
                            assert(g0[x].qtype@ != q.qtype@);
                        }
                    } else {
                        assert(gs@[x].questions@ =~= seq![q]);
                        assert(members(all, q.qtype@, i + 1) =~= seq![q]);
                    }
                }
            }
        }
        i += 1;
    }
    proof {
        assert(i == all.len());
        assert(all.skip(0) =~= all);
    }
    gs
}

/// The number of questions in the sections `ts[..k]`.
pub open spec fn sections_total(qs: Seq<QuestionRow>, ts: Seq<Seq<char>>, n: int, k: int) -> int
    decreases k,
{
    if k <= 0 { 0 } else { sections_total(qs, ts, n, k - 1) + members(qs, ts[k - 1], n).len() }
}

proof fn lemma_sections_total_same(qs: Seq<QuestionRow>, ts: Seq<Seq<char>>, n: int, k: int, t: Seq<char>)
    requires
        0 <= n < qs.len(),
        0 <= k <= ts.len(),
        forall|x: int| 0 <= x < k ==> ts[x] != qs[n].qtype@,
    ensures
        sections_total(qs, ts, n + 1, k) == sections_total(qs, ts, n, k),
    decreases k,
{
    if k > 0 {
        lemma_sections_total_same(qs, ts, n, k - 1, t);
    }
}

proof fn lemma_sections_total_step(qs: Seq<QuestionRow>, ts: Seq<Seq<char>>, n: int, k: int)
    requires
        0 <= n < qs.len(),
        0 <= k <= ts.len(),
        forall|a: int, b: int| 0 <= a < b < ts.len() ==> #[trigger] ts[a] != #[trigger] ts[b],
    ensures
        sections_total(qs, ts, n + 1, k) == sections_total(qs, ts, n, k)
            + if exists|x: int| 0 <= x < k && ts[x] == qs[n].qtype@ { 1int } else { 0 },
    decreases k,
{
    if k > 0 {
        lemma_sections_total_step(qs, ts, n, k - 1);
        let t = qs[n].qtype@;
        if ts[k - 1] == t {
            assert(!exists|x: int| 0 <= x < k - 1 && ts[x] == t) by {
                if exists|x: int| 0 <= x < k - 1 && ts[x] == t {
                    let x = choose|x: int| 0 <= x < k - 1 && ts[x] == t;
                    assert(ts[x] != ts[k - 1]);
                }
            }
        } else {
            if exists|x: int| 0 <= x < k && ts[x] == t {
                let x = choose|x: int| 0 <= x < k && ts[x] == t;
                assert(x < k - 1);
            }
        }
    }
}

/// The sections of a paper hold each of its questions exactly once: their sizes add up
/// to the number of questions.
pub proof fn law_sections_partition(qs: Seq<QuestionRow>, n: int)
    requires
        0 <= n <= qs.len(),
    ensures
        sections_total(qs, types_upto(qs, n), n, types_upto(qs, n).len() as int) == n,
    decreases n,
{
    if n > 0 {
        law_sections_partition(qs, n - 1);
        let p = types_upto(qs, n - 1);
        let ts = types_upto(qs, n);
        let t = qs[n - 1].qtype@;
        lemma_types_distinct(qs, n - 1);
        lemma_types_distinct(qs, n);
        lemma_sections_total_step(qs, ts, n - 1, ts.len() as int);
        if p.contains(t) {
            let x = choose|x: int| 0 <= x < p.len() && p[x] == t;
            assert(ts == p);
            assert(exists|x: int| 0 <= x < ts.len() && ts[x] == t);
        } else {
            assert(ts == p.push(t));
            assert(ts[p.len() as int] == t);
            assert(sections_total(qs, ts, n - 1, p.len() as int) == sections_total(qs, p, n - 1, p.len() as int)) by {
                lemma_sections_total_prefix(qs, p, ts, n - 1, p.len() as int);
            }
            lemma_members_other(qs, t, n - 1);
        }
    }
}

proof fn lemma_sections_total_prefix(qs: Seq<QuestionRow>, p: Seq<Seq<char>>, ts: Seq<Seq<char>>, n: int, k: int)
    requires
        0 <= k <= p.len() <= ts.len(),
        forall|x: int| 0 <= x < p.len() ==> p[x] == ts[x],
    ensures
        sections_total(qs, ts, n, k) == sections_total(qs, p, n, k),
    decreases k,
{
    if k > 0 {
        lemma_sections_total_prefix(qs, p, ts, n, k - 1);
    }
}

} // verus!
