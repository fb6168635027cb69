//! Run options and the assembly of the composed rule they call for.

use crate::bytes::spec_hidden;
use crate::ignore_config::{spec_ignores, IgnoreConfig};
use crate::rule::{
    lemma_priority_push, no_overrides, priority_verdict, spec_ignored, spec_override,
    DirectoriesOnlyRule, HideHiddenRule, PriorityRule, Rule,
};
use vstd::prelude::*;

verus! {

/// Options for one run: the target directory and which rule variants to
/// compose before walking.
pub struct Args {
    pub dir: Vec<u8>,
    pub show_hidden: bool,
    pub directories_only: bool,
    pub treeignore: bool,
    pub gitignore: bool,
}

/// What the rule assembled by `rule` ignores: hidden entries unless shown,
/// non-directories in directories-only mode, and whatever one of the loaded
/// ignore files ignores.
pub open spec fn composed_ignores(
    args: Args,
    treeignore: Option<IgnoreConfig>,
    gitignores: Seq<IgnoreConfig>,
    p: Seq<u8>,
    d: bool,
) -> bool {
    (!args.show_hidden && spec_hidden(p)) || (args.directories_only && !d) || (args.treeignore
        && treeignore is Some && spec_ignores(treeignore->0.root@, treeignore->0.content@, p)) || (
    args.gitignore && exists|j: int|
        0 <= j < gitignores.len() && spec_ignores(gitignores[j].root@, gitignores[j].content@, p))
}

/// Assembles one composed rule from the options and the ignore files already
/// loaded for this run, highest priority first.
pub fn rule(args: &Args, treeignore: &Option<IgnoreConfig>, gitignores: &Vec<IgnoreConfig>) -> (r:
    Rule)
    ensures
        forall|p: Seq<u8>, d: bool|
            spec_ignored(r, p, d) == composed_ignores(*args, *treeignore, gitignores@, p, d),
        forall|p: Seq<u8>, d: bool| !spec_override(r, p, d),
{
    let mut rules: Vec<Rule> = Vec::new();
    if !args.show_hidden {
        let ghost prev = rules@;
        rules.push(Rule::HideHidden(HideHiddenRule::new()));
        proof {
            let x = rules@.last();
            assert(no_overrides(rules@));
            assert forall|p: Seq<u8>, d: bool|
                priority_verdict(rules@, p, d) == (!args.show_hidden && spec_hidden(p)) by {
                lemma_priority_push(prev, x, p, d);
            }
        }
    } else {
        proof {
            assert forall|p: Seq<u8>, d: bool|
                priority_verdict(rules@, p, d) == (!args.show_hidden && spec_hidden(p)) by {
                assert(rules@.len() == 0);
            }
        }
    }
    if args.directories_only {
        let ghost prev = rules@;
        rules.push(Rule::DirectoriesOnly(DirectoriesOnlyRule::new()));
        proof {
            let x = rules@.last();
            assert(forall|k: int| 0 <= k < prev.len() ==> rules@[k] == prev[k]);
            assert(no_overrides(rules@));
            assert forall|p: Seq<u8>, d: bool|
                priority_verdict(rules@, p, d) == ((!args.show_hidden && spec_hidden(p)) || (
                args.directories_only && !d)) by {
                lemma_priority_push(prev, x, p, d);
            }
        }
    } else {
        proof {
            assert forall|p: Seq<u8>, d: bool|
                priority_verdict(rules@, p, d) == ((!args.show_hidden && spec_hidden(p)) || (
                args.directories_only && !d)) by {
            }
        }
    }
    if args.treeignore {
        match treeignore {
            Some(t) => {
                let tr = t.rule();
                let ghost prev = rules@;
                rules.push(tr);
                proof {
                    let x = rules@.last();
                    assert(forall|k: int| 0 <= k < prev.len() ==> rules@[k] == prev[k]);
                    assert(no_overrides(rules@));
                    assert forall|p: Seq<u8>, d: bool|
                        priority_verdict(rules@, p, d) == ((!args.show_hidden && spec_hidden(p))
                            || (args.directories_only && !d) || (args.treeignore && *treeignore
                            is Some && spec_ignores(
                            treeignore->0.root@,
                            treeignore->0.content@,
                            p,
                        ))) by {
                        lemma_priority_push(prev, x, p, d);
                    }
                }
            },
            None => {
                proof {
                    assert forall|p: Seq<u8>, d: bool|
                        priority_verdict(rules@, p, d) == ((!args.show_hidden && spec_hidden(p))
                            || (args.directories_only && !d) || (args.treeignore && *treeignore
                            is Some && spec_ignores(
                            treeignore->0.root@,
                            treeignore->0.content@,
                            p,
                        ))) by {
                    }
                }
            },
        }
    } else {
        proof {
            assert forall|p: Seq<u8>, d: bool|
                priority_verdict(rules@, p, d) == ((!args.show_hidden && spec_hidden(p)) || (
                args.directories_only && !d) || (args.treeignore && *treeignore is Some
                    && spec_ignores(treeignore->0.root@, treeignore->0.content@, p))) by {
            }
        }
    }
    if args.gitignore {
        let mut gi: usize = 0;
        while gi < gitignores.len()
            invariant
                gi <= gitignores.len(),
                args.gitignore,
                no_overrides(rules@),
                forall|p: Seq<u8>, d: bool|
                    priority_verdict(rules@, p, d) == ((!args.show_hidden && spec_hidden(p)) || (
                    args.directories_only && !d) || (args.treeignore && *treeignore is Some
                        && spec_ignores(treeignore->0.root@, treeignore->0.content@, p)) || (
                    exists|j: int|
                        0 <= j < gi as int && spec_ignores(
                            gitignores@[j].root@,
                            gitignores@[j].content@,
                            p,
                        ))),
            decreases gitignores.len() - gi,
        {
            let c = &gitignores[gi];
            let cr = c.rule();
            let ghost prev = rules@;
            rules.push(cr);
            proof {
                let x = rules@.last();
                assert(forall|k: int| 0 <= k < prev.len() ==> rules@[k] == prev[k]);
                assert(no_overrides(rules@));
                assert forall|p: Seq<u8>, d: bool|
                    priority_verdict(rules@, p, d) == ((!args.show_hidden && spec_hidden(p)) || (
                    args.directories_only && !d) || (args.treeignore && *treeignore is Some
                        && spec_ignores(treeignore->0.root@, treeignore->0.content@, p)) || (
                    exists|j: int|
                        0 <= j < gi as int + 1 && spec_ignores(
                            gitignores@[j].root@,
                            gitignores@[j].content@,
                            p,
                        ))) by {
                    lemma_priority_push(prev, x, p, d);
                    if spec_ignored(x, p, d) {
                        assert(spec_ignores(
                            gitignores@[gi as int].root@,
                            gitignores@[gi as int].content@,
                            p,
                        ));
                    }
                    if exists|j: int|
                        0 <= j < gi as int + 1 && spec_ignores(
                            gitignores@[j].root@,
                            gitignores@[j].content@,
                            p,
                        ) {
                        let j = choose|j: int|
                            0 <= j < gi as int + 1 && spec_ignores(
                                gitignores@[j].root@,
                                gitignores@[j].content@,
                                p,
                            );
                        if j == gi as int {
                            assert(spec_ignored(x, p, d));
                        }
                    }
                }
            }
            gi = gi + 1;
        }
    }
    let ghost base = rules@;
    let r = Rule::Priority(PriorityRule::new(rules));
    proof {
        assert forall|p: Seq<u8>, d: bool|
            spec_ignored(r, p, d) == composed_ignores(*args, *treeignore, gitignores@, p, d) by {
            assert(spec_ignored(r, p, d) == priority_verdict(base, p, d));
            assert(priority_verdict(base, p, d) == composed_ignores(
                *args,
                *treeignore,
                gitignores@,
                p,
                d,
            ));
        }
    }
    r
}

} // verus!
