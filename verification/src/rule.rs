//! Ignore rules: each rule answers two questions about a relative path (given
//! with a flag saying whether the path names a directory): whether the rule
//! alone ignores it, and whether the rule forces its inclusion, overriding an
//! ignore verdict of a lower-priority rule.

use crate::bytes::{bytes_eq, is_hidden_path, spec_hidden};
use vstd::prelude::*;

verus! {

/// Ignores exactly the paths equal to one stored path.
pub struct PathRule {
    pub path: Vec<u8>,
}

/// Forces inclusion of the paths its inner rule would ignore.
pub struct OverrideRule {
    pub rule: Box<Rule>,
}

/// Ignores paths whose last segment starts with a dot.
pub struct HideHiddenRule {}

/// Ignores paths that do not name a directory.
pub struct DirectoriesOnlyRule {}

/// An ordered sequence of rules, highest priority first, evaluated until the
/// first definitive verdict.
pub struct PriorityRule {
    pub rules: Vec<Rule>,
}

/// The closed set of rule variants; `Priority` lets rules nest.
pub enum Rule {
    Path(PathRule),
    Override(OverrideRule),
    HideHidden(HideHiddenRule),
    DirectoriesOnly(DirectoriesOnlyRule),
    Priority(PriorityRule),
}

/// Whether a rule alone says the path should be excluded.
pub open spec fn spec_ignored(r: Rule, path: Seq<u8>, is_dir: bool) -> bool
    decreases r,
{
    match r {
        Rule::Path(p) => p.path@ == path,
        Rule::Override(_) => false,
        Rule::HideHidden(_) => spec_hidden(path),
        Rule::DirectoriesOnly(_) => !is_dir,
        Rule::Priority(p) => priority_verdict(p.rules@, path, is_dir),
    }
}

/// Whether a rule alone says the path must be force-included.
pub open spec fn spec_override(r: Rule, path: Seq<u8>, is_dir: bool) -> bool
    decreases r,
{
    match r {
        Rule::Override(o) => spec_ignored(*o.rule, path, is_dir),
        _ => false,
    }
}

/// The verdict of an ordered rule sequence: the first rule that overrides
/// makes the path included, the first rule that ignores makes it excluded,
/// and a sequence without a verdict does not ignore.
pub open spec fn priority_verdict(rs: Seq<Rule>, path: Seq<u8>, is_dir: bool) -> bool
    decreases rs,
{
    if rs.len() == 0 {
        false
    } else if spec_override(rs[0], path, is_dir) {
        false
    } else if spec_ignored(rs[0], path, is_dir) {
        true
    } else {
        priority_verdict(rs.drop_first(), path, is_dir)
    }
}

/// The verdict of a rule sequence read from its last element backwards: what
/// `priority_verdict` yields once the sequence is reversed.
pub open spec fn back_verdict(rs: Seq<Rule>, path: Seq<u8>, is_dir: bool) -> bool
    decreases rs.len(),
{
    if rs.len() == 0 {
        false
    } else if spec_override(rs.last(), path, is_dir) {
        false
    } else if spec_ignored(rs.last(), path, is_dir) {
        true
    } else {
        back_verdict(rs.drop_last(), path, is_dir)
    }
}

impl PathRule {
    /// Builds a rule matching exactly the given path.
    pub fn new(path: Vec<u8>) -> (r: PathRule)
        ensures
            r.path@ == path@,
    {
        PathRule { path }
    }

    pub fn is_ignored(&self, path: &Vec<u8>, _is_dir: bool) -> (r: bool)
        ensures
            r == (self.path@ == path@),
    {
        bytes_eq(&self.path, path)
    }

    pub fn is_override(&self, _path: &Vec<u8>, _is_dir: bool) -> (r: bool)
        ensures
            !r,
    {
        false
    }
}

impl OverrideRule {
    /// Wraps a rule so that its ignore verdict becomes an override verdict.
    pub fn new(rule: Rule) -> (r: OverrideRule)
        ensures
            *r.rule == rule,
    {
        OverrideRule { rule: Box::new(rule) }
    }

    pub fn is_ignored(&self, _path: &Vec<u8>, _is_dir: bool) -> (r: bool)
        ensures
            !r,
    {
        false
    }

    pub fn is_override(&self, path: &Vec<u8>, is_dir: bool) -> (r: bool)
        ensures
            r == spec_ignored(*self.rule, path@, is_dir),
        decreases *self,
    {
        self.rule.is_ignored(path, is_dir)
    }
}

impl HideHiddenRule {
    /// Builds the rule that hides dot files.
    pub fn new() -> HideHiddenRule {
        HideHiddenRule {  }
    }

    pub fn is_ignored(&self, path: &Vec<u8>, _is_dir: bool) -> (r: bool)
        ensures
            r == spec_hidden(path@),
    {
        is_hidden_path(path)
    }

    pub fn is_override(&self, _path: &Vec<u8>, _is_dir: bool) -> (r: bool)
        ensures
            !r,
    {
        false
    }
}

impl DirectoriesOnlyRule {
    /// Builds the rule that keeps only directories.
    pub fn new() -> DirectoriesOnlyRule {
        DirectoriesOnlyRule {  }
    }

    pub fn is_ignored(&self, _path: &Vec<u8>, is_dir: bool) -> (r: bool)
        ensures
            r == !is_dir,
    {
        !is_dir
    }

    pub fn is_override(&self, _path: &Vec<u8>, _is_dir: bool) -> (r: bool)
        ensures
            !r,
    {
        false
    }
}

impl PriorityRule {
    /// Builds a composed rule from an ordered sequence, highest priority
    /// first.
    pub fn new(rules: Vec<Rule>) -> (r: PriorityRule)
        ensures
            r.rules@ == rules@,
    {
        PriorityRule { rules }
    }

    pub fn is_ignored(&self, path: &Vec<u8>, is_dir: bool) -> (r: bool)
        ensures
            r == priority_verdict(self.rules@, path@, is_dir),
        decreases *self,
    {
        let mut i: usize = 0;
        proof {
            assert(self.rules@.skip(0) =~= self.rules@);
        }
        while i < self.rules.len()
            invariant
                i <= self.rules.len(),
                priority_verdict(self.rules@, path@, is_dir) == priority_verdict(
                    self.rules@.skip(i as int),
                    path@,
                    is_dir,
                ),
            decreases self.rules.len() - i,
        {
            proof {
                let tail = self.rules@.skip(i as int);
                assert(tail[0] == self.rules@[i as int]);
                assert(tail.drop_first() =~= self.rules@.skip(i as int + 1));
            }
            let c = &self.rules[i];
            if c.is_override(path, is_dir) {
                return false;
            }
            if c.is_ignored(path, is_dir) {
                return true;
            }
            i = i + 1;
        }
        proof {
            assert(self.rules@.skip(self.rules@.len() as int).len() == 0);
        }
        false
    }

    pub fn is_override(&self, _path: &Vec<u8>, _is_dir: bool) -> (r: bool)
        ensures
            !r,
    {
        false
    }
}

impl Rule {
    /// Whether this rule alone says the path should be excluded.
    pub fn is_ignored(&self, path: &Vec<u8>, is_dir: bool) -> (r: bool)
        ensures
            r == spec_ignored(*self, path@, is_dir),
        decreases *self,
    {
        match self {
            Rule::Path(p) => p.is_ignored(path, is_dir),
            Rule::Override(o) => o.is_ignored(path, is_dir),
            Rule::HideHidden(h) => h.is_ignored(path, is_dir),
            Rule::DirectoriesOnly(d) => d.is_ignored(path, is_dir),
            Rule::Priority(p) => p.is_ignored(path, is_dir),
        }
    }

    /// Whether this rule alone says the path must be force-included.
    pub fn is_override(&self, path: &Vec<u8>, is_dir: bool) -> (r: bool)
        ensures
            r == spec_override(*self, path@, is_dir),
        decreases *self,
    {
        match self {
            Rule::Path(p) => p.is_override(path, is_dir),
            Rule::Override(o) => o.is_override(path, is_dir),
            Rule::HideHidden(h) => h.is_override(path, is_dir),
            Rule::DirectoriesOnly(d) => d.is_override(path, is_dir),
            Rule::Priority(p) => p.is_override(path, is_dir),
        }
    }
}

/// Priority composition law: when the first rule of a two-rule sequence
/// yields no verdict, the second rule's ignore verdict decides; when the
/// first rule overrides, the composed verdict is not ignored, whatever the
/// second rule says.
pub proof fn lemma_priority_precedence(r1: Rule, r2: Rule, path: Seq<u8>, is_dir: bool)
    ensures
        (!spec_override(r1, path, is_dir) && !spec_ignored(r1, path, is_dir) && spec_ignored(
            r2,
            path,
            is_dir,
        )) ==> priority_verdict(seq![r1, r2], path, is_dir),
        spec_override(r1, path, is_dir) ==> !priority_verdict(seq![r1, r2], path, is_dir),
{
    let rs = seq![r1, r2];
    let s2 = seq![r2];
    assert(rs[0] == r1);
    assert(rs.drop_first() =~= s2);
    assert(s2[0] == r2);
    if !spec_override(r1, path, is_dir) && !spec_ignored(r1, path, is_dir) && spec_ignored(
        r2,
        path,
        is_dir,
    ) {
        assert(spec_override(r2, path, is_dir) ==> !spec_ignored(r2, path, is_dir));
        assert(priority_verdict(s2, path, is_dir));
        assert(priority_verdict(rs, path, is_dir) == priority_verdict(s2, path, is_dir));
    }
}

/// Reversing a rule sequence turns the backward verdict into the priority
/// verdict.
pub proof fn lemma_reverse_verdict(rs: Seq<Rule>, path: Seq<u8>, is_dir: bool)
    ensures
        priority_verdict(rs.reverse(), path, is_dir) == back_verdict(rs, path, is_dir),
    decreases rs.len(),
{
    if rs.len() == 0 {
        assert(rs.reverse().len() == 0);
    } else {
        let rev = rs.reverse();
        assert(rev.len() == rs.len());
        assert(rev[0] == rs[rs.len() - 1]);
        assert(rev.drop_first() =~= rs.drop_last().reverse());
        lemma_reverse_verdict(rs.drop_last(), path, is_dir);
    }
}

/// Whether no rule of a sequence ever overrides.
pub open spec fn no_overrides(rs: Seq<Rule>) -> bool {
    forall|p: Seq<u8>, d: bool, k: int| 0 <= k < rs.len() ==> !spec_override(rs[k], p, d)
}

/// Appending a non-overriding rule to a sequence of non-overriding rules
/// adds its ignore verdict as a final fallback.
pub proof fn lemma_priority_push(rs: Seq<Rule>, x: Rule, path: Seq<u8>, is_dir: bool)
    requires
        !spec_override(x, path, is_dir),
        forall|k: int| 0 <= k < rs.len() ==> !spec_override(rs[k], path, is_dir),
    ensures
        priority_verdict(rs.push(x), path, is_dir) == (priority_verdict(rs, path, is_dir)
            || spec_ignored(x, path, is_dir)),
    decreases rs.len(),
{
    if rs.len() == 0 {
        assert(rs.push(x)[0] == x);
        assert(rs.push(x).drop_first() =~= Seq::<Rule>::empty());
        assert(priority_verdict(Seq::<Rule>::empty(), path, is_dir) == false);
        assert(priority_verdict(rs, path, is_dir) == false);
        assert(priority_verdict(rs.push(x), path, is_dir) == spec_ignored(x, path, is_dir));
    } else {
        assert(rs.push(x)[0] == rs[0]);
        assert(rs.push(x).drop_first() =~= rs.drop_first().push(x));
        assert(forall|k: int|
            0 <= k < rs.drop_first().len() ==> rs.drop_first()[k] == rs[k + 1]);
        lemma_priority_push(rs.drop_first(), x, path, is_dir);
        if spec_ignored(rs[0], path, is_dir) {
            assert(priority_verdict(rs, path, is_dir));
            assert(priority_verdict(rs.push(x), path, is_dir));
        } else {
            assert(priority_verdict(rs, path, is_dir) == priority_verdict(
                rs.drop_first(),
                path,
                is_dir,
            ));
            assert(priority_verdict(rs.push(x), path, is_dir) == priority_verdict(
                rs.drop_first().push(x),
                path,
                is_dir,
            ));
        }
    }
}

} // verus!
