//! The ignore-file parser: turns ignore-file text into one composed rule.
//!
//! One pattern per line. Blank lines and `#`-prefixed lines (after trimming)
//! contribute no rule; a `!`-prefixed line negates its pattern; a line that
//! starts with a separator is resolved against the configured root. Later
//! lines take priority over earlier ones, so the accumulated rules are
//! reversed before they are composed.

use crate::bytes::{
    drop_first_byte, join_path, spec_join, spec_lines, spec_trim, split_lines, trim,
};
use crate::rule::{
    back_verdict, lemma_reverse_verdict, spec_ignored, spec_override,
    OverrideRule, PathRule, PriorityRule, Rule,
};
use vstd::prelude::*;

verus! {

/// Whether a line contributes no rule: blank or a comment once trimmed.
pub open spec fn line_skipped(l: Seq<u8>) -> bool {
    spec_trim(l).len() == 0 || spec_trim(l)[0] == 35
}

/// Whether a line is a negated pattern.
pub open spec fn line_negation(l: Seq<u8>) -> bool {
    !line_skipped(l) && spec_trim(l)[0] == 33
}

/// Whether a line is a plain pattern.
pub open spec fn line_plain(l: Seq<u8>) -> bool {
    !line_skipped(l) && spec_trim(l)[0] != 33
}

/// The path a plain pattern matches: an absolute-looking line loses one
/// leading separator and is resolved against the root.
pub open spec fn line_target(root: Seq<u8>, l: Seq<u8>) -> Seq<u8> {
    let t = spec_trim(l);
    if t.len() > 0 && t[0] == 47 {
        spec_join(root, t.drop_first())
    } else {
        t
    }
}

/// The path a negated pattern force-includes: the text after the `!`.
pub open spec fn negation_target(l: Seq<u8>) -> Seq<u8> {
    spec_trim(l).drop_first()
}

/// The verdict of the lines of an ignore file on a path, in file order: a
/// later line wins over an earlier one, a matching negation includes, a
/// matching plain pattern ignores, and no match means not ignored.
pub open spec fn lines_verdict(root: Seq<u8>, ls: Seq<Seq<u8>>, path: Seq<u8>) -> bool
    decreases ls.len(),
{
    if ls.len() == 0 {
        false
    } else {
        let l = ls.last();
        if line_negation(l) && path == negation_target(l) {
            false
        } else if line_plain(l) && path == line_target(root, l) {
            true
        } else {
            lines_verdict(root, ls.drop_last(), path)
        }
    }
}

/// Whether ignore-file content, applied at the given root, ignores a path.
pub open spec fn spec_ignores(root: Seq<u8>, content: Seq<u8>, path: Seq<u8>) -> bool {
    lines_verdict(root, spec_lines(content), path)
}

/// Empty ignore-file content never ignores anything, whatever the path.
pub proof fn lemma_empty_ignores_nothing(root: Seq<u8>, path: Seq<u8>)
    ensures
        !spec_ignores(root, Seq::empty(), path),
{
    assert(spec_lines(Seq::<u8>::empty()).len() == 0);
}

/// Lines that are blank or comments once trimmed contribute no rule:
/// content made only of such lines never ignores anything.
pub proof fn lemma_skipped_lines_ignore_nothing(root: Seq<u8>, ls: Seq<Seq<u8>>, path: Seq<u8>)
    requires
        forall|k: int| 0 <= k < ls.len() ==> line_skipped(#[trigger] ls[k]),
    ensures
        !lines_verdict(root, ls, path),
    decreases ls.len(),
{
    if ls.len() > 0 {
        assert(line_skipped(ls[ls.len() - 1]));
        assert(forall|k: int|
            0 <= k < ls.drop_last().len() ==> #[trigger] ls.drop_last()[k] == ls[k]);
        lemma_skipped_lines_ignore_nothing(root, ls.drop_last(), path);
    }
}

/// A plain pattern with no negation ignores exactly the paths equal to its
/// target and no others.
pub proof fn lemma_plain_pattern_exact(root: Seq<u8>, l: Seq<u8>, path: Seq<u8>)
    requires
        line_plain(l),
    ensures
        lines_verdict(root, seq![l], path) <==> path == line_target(root, l),
{
    assert(seq![l].last() == l);
    assert(seq![l].drop_last() =~= Seq::<Seq<u8>>::empty());
    assert(!line_negation(l));
    assert(lines_verdict(root, Seq::<Seq<u8>>::empty(), path) == false);
    assert(lines_verdict(root, seq![l], path) == if line_plain(l) && path == line_target(root, l) {
        true
    } else {
        lines_verdict(root, Seq::<Seq<u8>>::empty(), path)
    });
}

/// Override beats ignore when declared later: when one line gives a pattern
/// matching a path and a later line negates that very path, and no line
/// after the negation gives a verdict on the path, the path is not ignored.
pub proof fn lemma_override_beats_ignore(
    root: Seq<u8>,
    ls: Seq<Seq<u8>>,
    path: Seq<u8>,
    i: int,
    j: int,
)
    requires
        0 <= i < j < ls.len(),
        line_plain(ls[i]),
        path == line_target(root, ls[i]),
        line_negation(ls[j]),
        path == negation_target(ls[j]),
        forall|k: int|
            j < k < ls.len() ==> !(line_negation(#[trigger] ls[k]) && path == negation_target(
                ls[k],
            )) && !(line_plain(ls[k]) && path == line_target(root, ls[k])),
    ensures
        !lines_verdict(root, ls, path),
    decreases ls.len(),
{
    assert(ls.last() == ls[ls.len() - 1]);
    if j == ls.len() - 1 {
        assert(line_negation(ls.last()) && path == negation_target(ls.last()));
    } else {
        assert(forall|k: int|
            0 <= k < ls.drop_last().len() ==> #[trigger] ls.drop_last()[k] == ls[k]);
        lemma_override_beats_ignore(root, ls.drop_last(), path, i, j);
    }
}

/// Raw ignore-file text plus the root directory the file applies to.
pub struct IgnoreConfig {
    pub content: Vec<u8>,
    pub root: Vec<u8>,
}

impl IgnoreConfig {
    /// Stores ignore-file text and the root it applies to.
    pub fn new(content: Vec<u8>, root: Vec<u8>) -> (c: IgnoreConfig)
        ensures
            c.content@ == content@,
            c.root@ == root@,
    {
        IgnoreConfig { content, root }
    }

    /// Parses the stored text into one composed rule. The rule ignores
    /// exactly the paths the text says to ignore, and never overrides.
    pub fn rule(&self) -> (r: Rule)
        ensures
            forall|p: Seq<u8>, d: bool|
                spec_ignored(r, p, d) == spec_ignores(self.root@, self.content@, p),
            forall|p: Seq<u8>, d: bool| !spec_override(r, p, d),
    {
        let ghost lv = spec_lines(self.content@);
        let lines = split_lines(&self.content);
        let mut rules: Vec<Rule> = Vec::new();
        let mut i: usize = 0;
        proof {
            assert(lv.take(0) =~= Seq::<Seq<u8>>::empty());
        }
        while i < lines.len()
            invariant
                i <= lines.len(),
                lines.deep_view() == lv,
                lv == spec_lines(self.content@),
                forall|p: Seq<u8>, d: bool|
                    back_verdict(rules@, p, d) == lines_verdict(self.root@, lv.take(i as int), p),
            decreases lines.len() - i,
        {
            let ghost l = lv[i as int];
            proof {
                assert(lines.deep_view()[i as int] == lines@[i as int]@);
                assert(lv.take(i as int + 1).last() == l);
                assert(lv.take(i as int + 1).drop_last() =~= lv.take(i as int));
            }
            let t = trim(&lines[i]);
            if t.len() == 0 {
                proof {
                    assert forall|p: Seq<u8>, d: bool|
                        back_verdict(rules@, p, d) == lines_verdict(
                            self.root@,
                            lv.take(i as int + 1),
                            p,
                        ) by {
                        assert(line_skipped(l));
                        assert(lines_verdict(self.root@, lv.take(i as int + 1), p)
                            == lines_verdict(self.root@, lv.take(i as int), p));
                    }
                }
            } else if t[0] == 35 {
                proof {
                    assert forall|p: Seq<u8>, d: bool|
                        back_verdict(rules@, p, d) == lines_verdict(
                            self.root@,
                            lv.take(i as int + 1),
                            p,
                        ) by {
                        assert(line_skipped(l));
                        assert(lines_verdict(self.root@, lv.take(i as int + 1), p)
                            == lines_verdict(self.root@, lv.take(i as int), p));
                    }
                }
            } else if t[0] == 33 {
                let pat = drop_first_byte(&t);
                let inner = Rule::Path(PathRule::new(pat));
                let ghost prev = rules@;
                rules.push(Rule::Override(OverrideRule::new(inner)));
                proof {
                    let x = rules@.last();
                    assert(rules@.drop_last() =~= prev);
                    assert forall|p: Seq<u8>, d: bool|
                        back_verdict(rules@, p, d) == lines_verdict(
                            self.root@,
                            lv.take(i as int + 1),
                            p,
                        ) by {
                        assert(line_negation(l));
                        assert(spec_override(x, p, d) == (p == negation_target(l)));
                        assert(!spec_ignored(x, p, d));
                        assert(back_verdict(prev, p, d) == lines_verdict(
                            self.root@,
                            lv.take(i as int),
                            p,
                        ));
                        assert(back_verdict(rules@, p, d) == if p == negation_target(l) {
                            false
                        } else {
                            back_verdict(prev, p, d)
                        });
                        assert(lines_verdict(self.root@, lv.take(i as int + 1), p)
                            == if p == negation_target(l) {
                            false
                        } else {
                            lines_verdict(self.root@, lv.take(i as int), p)
                        });
                    }
                }
            } else {
                let target: Vec<u8> = if t[0] == 47 {
                    let stripped = drop_first_byte(&t);
                    join_path(&self.root, &stripped)
                } else {
                    t
                };
                let ghost prev = rules@;
                rules.push(Rule::Path(PathRule::new(target)));
                proof {
                    let x = rules@.last();
                    assert(rules@.drop_last() =~= prev);
                    assert forall|p: Seq<u8>, d: bool|
                        back_verdict(rules@, p, d) == lines_verdict(
                            self.root@,
                            lv.take(i as int + 1),
                            p,
                        ) by {
                        assert(line_plain(l));
                        assert(!spec_override(x, p, d));
                        assert(spec_ignored(x, p, d) == (p == line_target(self.root@, l)));
                        assert(back_verdict(prev, p, d) == lines_verdict(
                            self.root@,
                            lv.take(i as int),
                            p,
                        ));
                        assert(back_verdict(rules@, p, d) == if p == line_target(self.root@, l) {
                            true
                        } else {
                            back_verdict(prev, p, d)
                        });
                        assert(lines_verdict(self.root@, lv.take(i as int + 1), p)
                            == if p == line_target(self.root@, l) {
                            true
                        } else {
                            lines_verdict(self.root@, lv.take(i as int), p)
                        });
                    }
                }
            }
            i = i + 1;
        }
        proof {
            assert(lv.take(lines@.len() as int) =~= lv);
        }
        let ghost rs0 = rules@;
        let mut rev: Vec<Rule> = Vec::new();
        proof {
            assert(rs0.take(rs0.len() as int) =~= rs0);
            assert(rs0.skip(rs0.len() as int).reverse() =~= Seq::<Rule>::empty());
        }
        while rules.len() > 0
            invariant
                rules@.len() <= rs0.len(),
                rules@ == rs0.take(rules@.len() as int),
                rev@ == rs0.skip(rules@.len() as int).reverse(),
            decreases rules.len(),
        {
            let ghost n = rules@.len() as int;
            let ghost prev_rev = rev@;
            let x = rules.pop().unwrap();
            rev.push(x);
            proof {
                let gl = rs0.len() as int;
                assert(rules@ =~= rs0.take(n - 1));
                assert(rs0.take(n)[n - 1] == rs0[n - 1]);
                assert(x == rs0[n - 1]);
                let a = rs0.skip(n - 1).reverse();
                assert(a.len() == gl - n + 1);
                assert(rev@.len() == gl - n + 1);
                assert(rev@ =~= a) by {
                    assert forall|m: int| 0 <= m < a.len() implies rev@[m] == a[m] by {
                        assert(a[m] == rs0.skip(n - 1)[gl - n - m]);
                        assert(rs0.skip(n - 1)[gl - n - m] == rs0[gl - 1 - m]);
                        if m < a.len() - 1 {
                            assert(rev@[m] == prev_rev[m]);
                            assert(prev_rev[m] == rs0.skip(n)[gl - n - 1 - m]);
                            assert(rs0.skip(n)[gl - n - 1 - m] == rs0[gl - 1 - m]);
                        } else {
                            assert(rev@[m] == rs0[n - 1]);
                        }
                    }
                }
            }
        }
        proof {
            assert(rs0.skip(0) =~= rs0);
        }
        let r = Rule::Priority(PriorityRule::new(rev));
        proof {
            assert forall|p: Seq<u8>, d: bool|
                spec_ignored(r, p, d) == spec_ignores(self.root@, self.content@, p) by {
                lemma_reverse_verdict(rs0, p, d);
            }
        }
        r
    }
}

} // verus!
