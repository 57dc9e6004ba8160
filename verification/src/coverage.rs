//! Per-rule-family coverage tracking for the constraint certificate: how many
//! checks of each violation kind ran, and how many found a violation.
use vstd::prelude::*;

use crate::drc::ViolationKind;

verus! {

/// Every violation kind, in declaration order.
pub open spec fn kinds_seq() -> Seq<ViolationKind> {
    seq![
        ViolationKind::Overlap,
        ViolationKind::Spacing,
        ViolationKind::Width,
        ViolationKind::Enclosure,
        ViolationKind::Area,
        ViolationKind::EOL,
        ViolationKind::PRL,
        ViolationKind::CutSpacing,
        ViolationKind::SameNetNotch,
        ViolationKind::GridSnap,
        ViolationKind::OutlineExceed,
        ViolationKind::WellSpacing,
        ViolationKind::WellEnclosure,
        ViolationKind::ImplantSpacing,
    ]
}

/// The position of `k` in [`kinds_seq`].
pub open spec fn kind_index(k: ViolationKind) -> int {
    match k {
        ViolationKind::Overlap => 0,
        ViolationKind::Spacing => 1,
        ViolationKind::Width => 2,
        ViolationKind::Enclosure => 3,
        ViolationKind::Area => 4,
        ViolationKind::EOL => 5,
        ViolationKind::PRL => 6,
        ViolationKind::CutSpacing => 7,
        ViolationKind::SameNetNotch => 8,
        ViolationKind::GridSnap => 9,
        ViolationKind::OutlineExceed => 10,
        ViolationKind::WellSpacing => 11,
        ViolationKind::WellEnclosure => 12,
        ViolationKind::ImplantSpacing => 13,
    }
}

/// The position of a violation kind among all kinds.
pub fn kind_position(k: ViolationKind) -> (i: usize)
    ensures
        i == kind_index(k),
        i < 14,
        kinds_seq()[i as int] == k,
{
    match k {
        ViolationKind::Overlap => 0,
        ViolationKind::Spacing => 1,
        ViolationKind::Width => 2,
        ViolationKind::Enclosure => 3,
        ViolationKind::Area => 4,
        ViolationKind::EOL => 5,
        ViolationKind::PRL => 6,
        ViolationKind::CutSpacing => 7,
        ViolationKind::SameNetNotch => 8,
        ViolationKind::GridSnap => 9,
        ViolationKind::OutlineExceed => 10,
        ViolationKind::WellSpacing => 11,
        ViolationKind::WellEnclosure => 12,
        ViolationKind::ImplantSpacing => 13,
    }
}

/// Every violation kind, in declaration order.
pub fn all_kinds() -> (v: Vec<ViolationKind>)
    ensures
        v@ == kinds_seq(),
{
    let v = vec![
        ViolationKind::Overlap,
        ViolationKind::Spacing,
        ViolationKind::Width,
        ViolationKind::Enclosure,
        ViolationKind::Area,
        ViolationKind::EOL,
        ViolationKind::PRL,
        ViolationKind::CutSpacing,
        ViolationKind::SameNetNotch,
        ViolationKind::GridSnap,
        ViolationKind::OutlineExceed,
        ViolationKind::WellSpacing,
        ViolationKind::WellEnclosure,
        ViolationKind::ImplantSpacing,
    ];
    proof {
        assert(v@ =~= kinds_seq());
    }
    v
}

/// The sum of a sequence of counts.
pub open spec fn total(s: Seq<u64>) -> int
    decreases s.len(),
{
    if s.len() == 0 {
        0
    } else {
        total(s.drop_last()) + s.last()
    }
}

/// The kinds whose count in `s` is zero, in declaration order, among the first `n`.
pub open spec fn zero_kinds(s: Seq<u64>, n: int) -> Seq<ViolationKind>
    decreases n,
{
    if n <= 0 {
        seq![]
    } else if s[n - 1] == 0 {
        zero_kinds(s, n - 1).push(kinds_seq()[n - 1])
    } else {
        zero_kinds(s, n - 1)
    }
}

/// Tracks how many checks of each [`ViolationKind`] ran and how many found a
/// violation. Used by the constraint certificate to report per-rule-family
/// coverage; a family whose check count is zero was never checked.
#[derive(Debug, Clone)]
pub struct RuleFamilyCoverage {
    checked: Vec<u64>,
    violations: Vec<u64>,
}

impl RuleFamilyCoverage {
    /// One count per kind, in declaration order.
    pub closed spec fn wf(&self) -> bool {
        self.checked@.len() == 14 && self.violations@.len() == 14
    }

    /// The number of checks per kind, in declaration order.
    pub closed spec fn checked_view(&self) -> Seq<u64> {
        self.checked@
    }

    /// The number of violations found per kind, in declaration order.
    pub closed spec fn violations_view(&self) -> Seq<u64> {
        self.violations@
    }

    /// No checks recorded yet.
    pub fn new() -> (c: RuleFamilyCoverage)
        ensures
            c.wf(),
            c.checked_view() == Seq::new(14, |i: int| 0u64),
            c.violations_view() == Seq::new(14, |i: int| 0u64),
    {
        let mut checked: Vec<u64> = Vec::new();
        let mut violations: Vec<u64> = Vec::new();
        let mut i: usize = 0;
        while i < 14
            invariant
                i <= 14,
                checked@ == Seq::new(i as nat, |k: int| 0u64),
                violations@ == Seq::new(i as nat, |k: int| 0u64),
            decreases 14 - i,
        {
            checked.push(0);
            violations.push(0);
            proof {
                assert(checked@ =~= Seq::new((i + 1) as nat, |k: int| 0u64));
                assert(violations@ =~= Seq::new((i + 1) as nat, |k: int| 0u64));
            }
            i = i + 1;
        }
        RuleFamilyCoverage { checked, violations }
    }

    /// Record a check of `kind`, and whether it found a violation.
    pub fn record_check(&mut self, kind: ViolationKind, violation: bool)
        requires
            old(self).wf(),
            old(self).checked_view()[kind_index(kind)] < u64::MAX,
            violation ==> old(self).violations_view()[kind_index(kind)] < u64::MAX,
        ensures
            final(self).wf(),
            final(self).checked_view() == old(self).checked_view().update(
                kind_index(kind),
                (old(self).checked_view()[kind_index(kind)] + 1) as u64,
            ),
            final(self).violations_view() == if violation {
                old(self).violations_view().update(
                    kind_index(kind),
                    (old(self).violations_view()[kind_index(kind)] + 1) as u64,
                )
            } else {
                old(self).violations_view()
            },
            total(final(self).checked_view()) == total(old(self).checked_view()) + 1,
            total(final(self).violations_view()) == total(old(self).violations_view()) + if violation {
                1int
            } else {
                0int
            },
    {
        let i = kind_position(kind);
        let c = self.checked[i];
        let ghost before = self.checked@;
        self.checked.set(i, c + 1);
        proof {
            lemma_record_check_totals(before, self.checked@, i as int);
        }
        if violation {
            let v = self.violations[i];
            let ghost vbefore = self.violations@;
            self.violations.set(i, v + 1);
            proof {
                lemma_record_check_totals(vbefore, self.violations@, i as int);
            }
        }
    }

    /// How many checks of `kind` were recorded.
    pub fn checked_count(&self, kind: ViolationKind) -> (n: u64)
        requires
            self.wf(),
        ensures
            n == self.checked_view()[kind_index(kind)],
    {
        self.checked[kind_position(kind)]
    }

    /// How many violations of `kind` were recorded.
    pub fn violation_count(&self, kind: ViolationKind) -> (n: u64)
        requires
            self.wf(),
        ensures
            n == self.violations_view()[kind_index(kind)],
    {
        self.violations[kind_position(kind)]
    }

    /// Total checks across all families.
    pub fn total_checked(&self) -> (n: u64)
        requires
            self.wf(),
            total(self.checked_view()) <= u64::MAX,
        ensures
            n == total(self.checked_view()),
    {
        sum_counts(&self.checked)
    }

    /// Total violations across all families.
    pub fn total_violations(&self) -> (n: u64)
        requires
            self.wf(),
            total(self.violations_view()) <= u64::MAX,
        ensures
            n == total(self.violations_view()),
    {
        sum_counts(&self.violations)
    }

    /// Rule families that have never been checked (potential coverage gaps),
    /// in declaration order.
    pub fn unchecked_families(&self) -> (v: Vec<ViolationKind>)
        requires
            self.wf(),
        ensures
            v@ == zero_kinds(self.checked_view(), 14),
    {
        let kinds = all_kinds();
        let mut out: Vec<ViolationKind> = Vec::new();
        let mut i: usize = 0;
        while i < 14
            invariant
                i <= 14,
                self.checked@.len() == 14,
                kinds@ == kinds_seq(),
                out@ == zero_kinds(self.checked@, i as int),
            decreases 14 - i,
        {
            if self.checked[i] == 0 {
                out.push(kinds[i]);
            }
            i = i + 1;
        }
        out
    }
}

proof fn lemma_total_prefix(s: Seq<u64>, i: int)
    requires
        0 <= i <= s.len(),
    ensures
        0 <= total(s.take(i)) <= total(s),
    decreases s.len() - i,
{
    if i < s.len() {
        lemma_total_prefix(s, i + 1);
        assert(s.take(i + 1).drop_last() =~= s.take(i));
    } else {
        assert(s.take(i) =~= s);
    }
    lemma_total_nonneg(s.take(i));
}

proof fn lemma_total_nonneg(s: Seq<u64>)
    ensures
        total(s) >= 0,
    decreases s.len(),
{
    if s.len() > 0 {
        lemma_total_nonneg(s.drop_last());
    }
}

/// The sum of the counts in `v`.
fn sum_counts(v: &Vec<u64>) -> (n: u64)
    requires
        total(v@) <= u64::MAX,
    ensures
        n == total(v@),
{
    let mut acc: u64 = 0;
    let mut i: usize = 0;
    while i < v.len()
        invariant
            i <= v@.len(),
            acc == total(v@.take(i as int)),
            total(v@) <= u64::MAX,
        decreases v@.len() - i,
    {
        proof {
            assert(v@.take(i + 1).drop_last() =~= v@.take(i as int));
            lemma_total_prefix(v@, i + 1);
        }
        acc = acc + v[i];
        i = i + 1;
    }
    proof {
        assert(v@.take(v@.len() as int) =~= v@);
    }
    acc
}

impl Default for RuleFamilyCoverage {
    fn default() -> (c: RuleFamilyCoverage)
        ensures
            c.wf(),
            c.checked_view() == Seq::new(14, |i: int| 0u64),
            c.violations_view() == Seq::new(14, |i: int| 0u64),
    {
        RuleFamilyCoverage::new()
    }
}

/// Raising one count by one raises the total by one.
proof fn lemma_record_check_totals(
    before: Seq<u64>,
    after: Seq<u64>,
    i: int,
)
    requires
        0 <= i < before.len(),
        before[i] < u64::MAX,
        after == before.update(i, (before[i] + 1) as u64),
    ensures
        total(after) == total(before) + 1,
    decreases before.len(),
{
    if i < before.len() - 1 {
        assert(after.drop_last() =~= before.drop_last().update(i, (before[i] + 1) as u64));
        lemma_record_check_totals(before.drop_last(), after.drop_last(), i);
    } else {
        assert(after.drop_last() =~= before.drop_last());
    }
}

} // verus!
