//! The access-control policy: rule lines parsed into an ordered rule list,
//! and the filter evaluation engine that prunes route objects against it.
use vstd::prelude::*;
use vstd::string::StrSliceExecFns;
use vstd::string::StringExecFns;

use crate::parse::{ro_views, RouteObject, RouteObjectV};
use crate::prefix::{cidr_of, parse_ip_cidr, Prefix};
use crate::text::{
    parse_i32, parse_i32_spec, split_whitespace, str_eq, str_views, tokens_of,
};

verus! {

/// One access-control policy line: evaluated in ascending `priority` order;
/// `allow` permits or denies; `prefix` is the governed address range;
/// `min_len` and `max_len` bound the authorized maximum length.
#[derive(Clone, Copy, Debug, PartialEq, Eq, Structural)]
pub struct FilterSet {
    pub priority: i32,
    pub allow: bool,
    pub prefix: Prefix,
    pub min_len: i32,
    pub max_len: i32,
}

/// What `FilterSet::new` yields from the five tokens of a rule line, first
/// failure wins: a missing token or an unparseable field is an error; the
/// permit/deny keyword never fails, anything but the literal "permit" is
/// deny.
pub open spec fn rule_new_spec(
    priority: Option<Seq<char>>,
    allow: Option<Seq<char>>,
    prefix: Option<Seq<char>>,
    min_len: Option<Seq<char>>,
    max_len: Option<Seq<char>>,
) -> Result<FilterSet, Seq<char>> {
    if priority is None {
        Err("priority value missing"@)
    } else {
        match parse_i32_spec(priority.unwrap()) {
            None => Err("Failed to parse priority as i32"@),
            Some(pr) => {
                if allow is None {
                    Err("allow value missing"@)
                } else {
                    let al = allow.unwrap() == "permit"@;
                    if prefix is None {
                        Err("invalid prefix"@)
                    } else {
                        match cidr_of(prefix.unwrap()) {
                            None => Err("Failed to parse prefix"@),
                            Some(p) => {
                                if min_len is None {
                                    Err("min_len value missing"@)
                                } else {
                                    match parse_i32_spec(min_len.unwrap()) {
                                        None => Err("Failed to parse min_length as i32"@),
                                        Some(mn) => {
                                            if max_len is None {
                                                Err("max_len value missing"@)
                                            } else {
                                                match parse_i32_spec(max_len.unwrap()) {
                                                    None => Err(
                                                        "Failed to parse max_length as i32"@,
                                                    ),
                                                    Some(mx) => Ok(
                                                        FilterSet {
                                                            priority: pr,
                                                            allow: al,
                                                            prefix: p,
                                                            min_len: mn,
                                                            max_len: mx,
                                                        },
                                                    ),
                                                }
                                            }
                                        },
                                    }
                                }
                            },
                        }
                    }
                }
            },
        }
    }
}

pub open spec fn opt_str_view(o: Option<&String>) -> Option<Seq<char>> {
    match o {
        Some(s) => Some(s@),
        None => None,
    }
}

impl FilterSet {
    /// Build one rule from the five tokens of a policy line.
    pub fn new(
        priority: Option<&String>,
        allow: Option<&String>,
        prefix: Option<&String>,
        min_len: Option<&String>,
        max_len: Option<&String>,
    ) -> (r: Result<FilterSet, String>)
        ensures
            (match r {
                Ok(f) => rule_new_spec(
                    opt_str_view(priority),
                    opt_str_view(allow),
                    opt_str_view(prefix),
                    opt_str_view(min_len),
                    opt_str_view(max_len),
                ) == Ok::<FilterSet, Seq<char>>(f),
                Err(m) => rule_new_spec(
                    opt_str_view(priority),
                    opt_str_view(allow),
                    opt_str_view(prefix),
                    opt_str_view(min_len),
                    opt_str_view(max_len),
                ) == Err::<FilterSet, Seq<char>>(m@),
            }),
    {
        let pr = match priority {
            None => {
                return Err("priority value missing".to_owned());
            },
            Some(s) => match parse_i32(s.as_str()) {
                None => {
                    return Err("Failed to parse priority as i32".to_owned());
                },
                Some(v) => v,
            },
        };
        let al = match allow {
            None => {
                return Err("allow value missing".to_owned());
            },
            Some(s) => str_eq(s.as_str(), "permit"),
        };
        let p = match prefix {
            None => {
                return Err("invalid prefix".to_owned());
            },
            Some(s) => match parse_ip_cidr(s.as_str()) {
                None => {
                    return Err("Failed to parse prefix".to_owned());
                },
                Some(v) => v,
            },
        };
        let mn = match min_len {
            None => {
                return Err("min_len value missing".to_owned());
            },
            Some(s) => match parse_i32(s.as_str()) {
                None => {
                    return Err("Failed to parse min_length as i32".to_owned());
                },
                Some(v) => v,
            },
        };
        let mx = match max_len {
            None => {
                return Err("max_len value missing".to_owned());
            },
            Some(s) => match parse_i32(s.as_str()) {
                None => {
                    return Err("Failed to parse max_length as i32".to_owned());
                },
                Some(v) => v,
            },
        };
        Ok(FilterSet { priority: pr, allow: al, prefix: p, min_len: mn, max_len: mx })
    }
}

/// Comment lines and empty lines are skipped silently.
pub open spec fn line_skipped(line: Seq<char>) -> bool {
    line.len() == 0 || line[0] == '#'
}

pub open spec fn opt_tok(toks: Seq<Seq<char>>, i: int) -> Option<Seq<char>> {
    if 0 <= i < toks.len() {
        Some(toks[i])
    } else {
        None
    }
}

/// What one policy line yields: nothing for a skipped line, else a rule or
/// the reason it fails.
pub open spec fn line_rule(line: Seq<char>) -> Option<Result<FilterSet, Seq<char>>> {
    if line_skipped(line) {
        None
    } else {
        let toks = tokens_of(line);
        Some(
            rule_new_spec(
                opt_tok(toks, 0),
                opt_tok(toks, 1),
                opt_tok(toks, 2),
                opt_tok(toks, 3),
                opt_tok(toks, 4),
            ),
        )
    }
}

/// The warning recorded for a policy line that fails to parse.
pub open spec fn filter_warning(line: Seq<char>, reason: Seq<char>) -> Seq<char> {
    "Failed to parse filter.txt line: "@ + line + " Error: "@ + reason
}

/// The rules of a policy file, in line order, before sorting.
pub open spec fn parsed_rules_of(lines: Seq<Seq<char>>) -> Seq<FilterSet>
    decreases lines.len(),
{
    if lines.len() == 0 {
        Seq::empty()
    } else {
        parsed_rules_of(lines.drop_last()) + (match line_rule(lines.last()) {
            Some(Ok(f)) => seq![f],
            _ => Seq::empty(),
        })
    }
}

/// The warnings of a policy file, in line order.
pub open spec fn filter_warnings_of(lines: Seq<Seq<char>>) -> Seq<Seq<char>>
    decreases lines.len(),
{
    if lines.len() == 0 {
        Seq::empty()
    } else {
        filter_warnings_of(lines.drop_last()) + (match line_rule(lines.last()) {
            Some(Err(m)) => seq![filter_warning(lines.last(), m)],
            _ => Seq::empty(),
        })
    }
}

/// Ascending by priority.
pub open spec fn sorted_by_priority(s: Seq<FilterSet>) -> bool {
    forall|i: int, j: int| 0 <= i < j < s.len() ==> s[i].priority <= s[j].priority
}

/// Insert after every element of equal or lower priority: the stable
/// insertion position.
pub open spec fn insert_sorted(s: Seq<FilterSet>, x: FilterSet) -> Seq<FilterSet>
    decreases s.len(),
{
    if s.len() == 0 {
        seq![x]
    } else if s[0].priority <= x.priority {
        seq![s[0]] + insert_sorted(s.skip(1), x)
    } else {
        seq![x] + s
    }
}

/// Stable sort ascending by priority: ties keep their original order.
pub open spec fn sort_rules(s: Seq<FilterSet>) -> Seq<FilterSet>
    decreases s.len(),
{
    if s.len() == 0 {
        Seq::empty()
    } else {
        insert_sorted(sort_rules(s.drop_last()), s.last())
    }
}

proof fn lemma_insert_sorted_sorted(s: Seq<FilterSet>, x: FilterSet)
    requires
        sorted_by_priority(s),
    ensures
        sorted_by_priority(insert_sorted(s, x)),
        insert_sorted(s, x).len() == s.len() + 1,
    decreases s.len(),
{
    if s.len() == 0 {
    } else if s[0].priority <= x.priority {
        assert(sorted_by_priority(s.skip(1)));
        lemma_insert_sorted_sorted(s.skip(1), x);
        let r = seq![s[0]] + insert_sorted(s.skip(1), x);
        assert forall|i: int, j: int| 0 <= i < j < r.len() implies r[i].priority
            <= r[j].priority by {
            if i == 0 {
                // The head of the inserted tail is either the old second
                // element or x itself; both have priority at least s[0]'s.
                let t = insert_sorted(s.skip(1), x);
                assert(j == 1 || r[j] == t[j - 1]);
                if j > 1 && t.len() >= 2 {
                    assert(t[0].priority <= t[j - 1].priority || j - 1 == 0);
                }
                if s.skip(1).len() == 0 {
                    assert(r[1] == x);
                } else if s.skip(1)[0].priority <= x.priority {
                    assert(t[0] == s.skip(1)[0]);
                } else {
                    assert(t[0] == x);
                }
            } else {
                assert(r[i] == insert_sorted(s.skip(1), x)[i - 1]);
                assert(r[j] == insert_sorted(s.skip(1), x)[j - 1]);
            }
        }
    } else {
        let r = seq![x] + s;
        assert forall|i: int, j: int| 0 <= i < j < r.len() implies r[i].priority
            <= r[j].priority by {
            if i == 0 {
                assert(r[j] == s[j - 1]);
                if j - 1 > 0 {
                    assert(s[0].priority <= s[j - 1].priority);
                }
            } else {
                assert(r[i] == s[i - 1]);
                assert(r[j] == s[j - 1]);
            }
        }
    }
}

proof fn lemma_insert_sorted_at(s: Seq<FilterSet>, x: FilterSet, pos: int)
    requires
        sorted_by_priority(s),
        0 <= pos <= s.len(),
        forall|k: int| 0 <= k < pos ==> s[k].priority <= x.priority,
        pos < s.len() ==> s[pos].priority > x.priority,
    ensures
        insert_sorted(s, x) == s.take(pos) + seq![x] + s.skip(pos),
    decreases pos,
{
    if pos == 0 {
        if s.len() == 0 {
            assert(insert_sorted(s, x) =~= s.take(0) + seq![x] + s.skip(0));
        } else {
            assert(s[0].priority > x.priority);
            assert(insert_sorted(s, x) =~= s.take(0) + seq![x] + s.skip(0));
        }
    } else {
        assert(s[0].priority <= x.priority);
        assert(sorted_by_priority(s.skip(1)));
        lemma_insert_sorted_at(s.skip(1), x, pos - 1);
        assert(insert_sorted(s, x) =~= seq![s[0]] + (s.skip(1).take(pos - 1) + seq![x] + s.skip(
            1,
        ).skip(pos - 1)));
        assert(seq![s[0]] + (s.skip(1).take(pos - 1) + seq![x] + s.skip(1).skip(pos - 1)) =~= s.take(
            pos,
        ) + seq![x] + s.skip(pos));
    }
}

/// Sort rules ascending by priority; ties keep their original order.
fn sort_by_priority(rules: Vec<FilterSet>) -> (r: Vec<FilterSet>)
    ensures
        r@ == sort_rules(rules@),
        sorted_by_priority(r@),
{
    let mut out: Vec<FilterSet> = Vec::new();
    let mut i: usize = 0;
    proof {
        assert(rules@.take(0) =~= Seq::<FilterSet>::empty());
        assert(out@ =~= sort_rules(rules@.take(0)));
    }
    while i < rules.len()
        invariant
            0 <= i <= rules.len(),
            out@ == sort_rules(rules@.take(i as int)),
            sorted_by_priority(out@),
        decreases rules.len() - i,
    {
        let x = rules[i];
        let mut pos: usize = out.len();
        while pos > 0 && out[pos - 1].priority > x.priority
            invariant
                0 <= pos <= out@.len(),
                sorted_by_priority(out@),
                forall|k: int| pos <= k < out@.len() ==> out@[k].priority > x.priority,
            decreases pos,
        {
            pos -= 1;
        }
        proof {
            assert forall|k: int| 0 <= k < pos implies out@[k].priority <= x.priority by {
                assert(out@[k].priority <= out@[pos - 1].priority);
            }
            lemma_insert_sorted_at(out@, x, pos as int);
            lemma_insert_sorted_sorted(out@, x);
            assert(rules@.take(i + 1).drop_last() =~= rules@.take(i as int));
            assert(rules@.take(i + 1).last() == rules@[i as int]);
            assert(out@.take(pos as int) + seq![x] + out@.skip(pos as int) =~= out@.insert(
                pos as int,
                x,
            ));
        }
        out.insert(pos, x);
        i += 1;
    }
    proof {
        assert(rules@.take(rules@.len() as int) =~= rules@);
    }
    out
}

/// Load a policy file's lines: the rules sorted ascending by priority (ties
/// in original order), and one warning per line that fails to parse.
pub fn read_filter_set(lines: &Vec<String>) -> (r: (Vec<FilterSet>, Vec<String>))
    ensures
        r.0@ == sort_rules(parsed_rules_of(str_views(lines@))),
        sorted_by_priority(r.0@),
        str_views(r.1@) == filter_warnings_of(str_views(lines@)),
{
    let ghost lv = str_views(lines@);
    let mut set: Vec<FilterSet> = Vec::new();
    let mut warnings: Vec<String> = Vec::new();
    let mut i: usize = 0;
    proof {
        assert(lv.take(0) =~= Seq::<Seq<char>>::empty());
        assert(set@ =~= parsed_rules_of(lv.take(0)));
        assert(str_views(warnings@) =~= filter_warnings_of(lv.take(0)));
    }
    while i < lines.len()
        invariant
            lv == str_views(lines@),
            0 <= i <= lines.len(),
            set@ == parsed_rules_of(lv.take(i as int)),
            str_views(warnings@) == filter_warnings_of(lv.take(i as int)),
        decreases lines.len() - i,
    {
        let line: &String = &lines[i];
        proof {
            assert(lv.take(i + 1).drop_last() =~= lv.take(i as int));
            assert(lv.take(i + 1).last() == line@);
        }
        let n = line.as_str().unicode_len();
        let skipped = n == 0 || line.as_str().get_char(0) == '#';
        if !skipped {
            let toks = split_whitespace(line.as_str());
            let t0 = if toks.len() > 0 {
                Some(&toks[0])
            } else {
                None
            };
            let t1 = if toks.len() > 1 {
                Some(&toks[1])
            } else {
                None
            };
            let t2 = if toks.len() > 2 {
                Some(&toks[2])
            } else {
                None
            };
            let t3 = if toks.len() > 3 {
                Some(&toks[3])
            } else {
                None
            };
            let t4 = if toks.len() > 4 {
                Some(&toks[4])
            } else {
                None
            };
            proof {
                assert(opt_str_view(t0) == opt_tok(tokens_of(line@), 0));
                assert(opt_str_view(t1) == opt_tok(tokens_of(line@), 1));
                assert(opt_str_view(t2) == opt_tok(tokens_of(line@), 2));
                assert(opt_str_view(t3) == opt_tok(tokens_of(line@), 3));
                assert(opt_str_view(t4) == opt_tok(tokens_of(line@), 4));
            }
            match FilterSet::new(t0, t1, t2, t3, t4) {
                Ok(f) => {
                    proof {
                        assert(parsed_rules_of(lv.take(i + 1)) =~= parsed_rules_of(
                            lv.take(i as int),
                        ).push(f));
                        assert(filter_warnings_of(lv.take(i + 1)) =~= filter_warnings_of(
                            lv.take(i as int),
                        ));
                    }
                    set.push(f);
                },
                Err(err) => {
                    let mut w = "Failed to parse filter.txt line: ".to_owned();
                    w.append(line.as_str());
                    w.append(" Error: ");
                    w.append(err.as_str());
                    proof {
                        assert(w@ == filter_warning(line@, err@));
                        assert(str_views(warnings@.push(w)) =~= str_views(warnings@).push(w@));
                        assert(filter_warnings_of(lv.take(i + 1)) =~= filter_warnings_of(
                            lv.take(i as int),
                        ).push(w@));
                        assert(parsed_rules_of(lv.take(i + 1)) =~= parsed_rules_of(
                            lv.take(i as int),
                        ));
                    }
                    warnings.push(w);
                },
            }
        } else {
            proof {
                assert(line_skipped(line@));
                assert(parsed_rules_of(lv.take(i + 1)) =~= parsed_rules_of(lv.take(i as int)));
                assert(filter_warnings_of(lv.take(i + 1)) =~= filter_warnings_of(
                    lv.take(i as int),
                ));
            }
        }
        i += 1;
    }
    proof {
        assert(lv.take(lines@.len() as int) =~= lv);
    }
    (sort_by_priority(set), warnings)
}

/// The first rule at or after `i` whose network covers `p`.
pub open spec fn first_match_from(rules: Seq<FilterSet>, p: Prefix, i: int) -> Option<int>
    decreases rules.len() - i,
{
    if i < 0 || i >= rules.len() {
        None
    } else if rules[i].prefix.spec_covers(p) {
        Some(i)
    } else {
        first_match_from(rules, p, i + 1)
    }
}

/// The applicable rule: the first rule, in list order, whose network covers
/// the whole range of `p`.
pub open spec fn spec_first_match(rules: Seq<FilterSet>, p: Prefix) -> Option<int> {
    first_match_from(rules, p, 0)
}

/// Length reconciliation: an absent declared maximum becomes the rule's
/// maximum; a declared maximum above the rule's maximum is clamped down;
/// a value below the rule's minimum is then clamped up.
pub open spec fn spec_effective_max(declared: Option<i32>, r: FilterSet) -> i32 {
    match declared {
        None => r.max_len,
        Some(d) => {
            let d1 = if d > r.max_len {
                r.max_len
            } else {
                d
            };
            if d1 < r.min_len {
                r.min_len
            } else {
                d1
            }
        },
    }
}

/// One object against the rule list: kept, with its effective maximum
/// length, exactly when a rule covers it, that rule permits it, and its own
/// announced length does not exceed the effective maximum.
pub open spec fn spec_eval_object(o: RouteObjectV, rules: Seq<FilterSet>) -> Option<RouteObjectV> {
    match spec_first_match(rules, o.prefix) {
        None => None,
        Some(i) => {
            let r = rules[i];
            if !r.allow {
                None
            } else {
                let eff = spec_effective_max(o.max_length, r);
                if o.prefix.len as i32 > eff {
                    None
                } else {
                    Some(RouteObjectV { prefix: o.prefix, origins: o.origins, max_length: Some(eff) })
                }
            }
        },
    }
}

/// The whole object list after one evaluation pass, in input order.
pub open spec fn spec_eval_all(objs: Seq<RouteObjectV>, rules: Seq<FilterSet>) -> Seq<RouteObjectV>
    decreases objs.len(),
{
    if objs.len() == 0 {
        Seq::empty()
    } else {
        spec_eval_all(objs.drop_last(), rules) + (match spec_eval_object(objs.last(), rules) {
            Some(o) => seq![o],
            None => Seq::empty(),
        })
    }
}

/// Evaluate the policy over the object list, in place: retain only objects
/// that a rule covers and permits and whose announced length fits, and set
/// each retained object's `max_length` to its effective value.
pub fn evaluate_filter_set(object_list: &mut Vec<RouteObject>, filter_set: &Vec<FilterSet>)
    ensures
        ro_views(final(object_list)@) == spec_eval_all(ro_views(old(object_list)@), filter_set@),
        forall|k: int|
            0 <= k < final(object_list)@.len() ==> (#[trigger] final(object_list)@[k]).max_length is Some,
        (forall|k: int| 0 <= k < old(object_list)@.len() ==> (#[trigger] old(object_list)@[k]).prefix.wf())
            ==> (forall|k: int|
            0 <= k < final(object_list)@.len() ==> (#[trigger] final(object_list)@[k]).prefix.wf()),
{
    let ghost orig = old(object_list)@;
    let mut out: Vec<RouteObject> = Vec::new();
    let ghost k: int = 0;
    proof {
        assert(orig.skip(0) =~= orig);
        assert(ro_views(orig.take(0)) =~= Seq::<RouteObjectV>::empty());
        assert(spec_eval_all(ro_views(orig.take(0)), filter_set@) =~= Seq::<RouteObjectV>::empty());
        assert(ro_views(out@) =~= Seq::<RouteObjectV>::empty());
    }
    while object_list.len() > 0
        invariant
            0 <= k <= orig.len(),
            object_list@ == orig.skip(k),
            ro_views(out@) == spec_eval_all(ro_views(orig.take(k)), filter_set@),
            forall|j: int| 0 <= j < out@.len() ==> (#[trigger] out@[j]).max_length is Some,
            (forall|j: int| 0 <= j < orig.len() ==> (#[trigger] orig[j]).prefix.wf())
                ==> (forall|j: int| 0 <= j < out@.len() ==> (#[trigger] out@[j]).prefix.wf()),
        decreases object_list@.len(),
    {
        let mut o = object_list.remove(0);
        let ghost ov = o@;
        proof {
            assert(orig.skip(k).remove(0) =~= orig.skip(k + 1));
            assert(o == orig[k]);
            assert(ro_views(orig.take(k + 1)).drop_last() =~= ro_views(orig.take(k)));
            assert(ro_views(orig.take(k + 1)).last() == ov);
        }
        let mut j: usize = 0;
        let mut found: Option<usize> = None;
        while found.is_none() && j < filter_set.len()
            invariant
                0 <= j <= filter_set@.len(),
                o@ == ov,
                (match found {
                    None => first_match_from(filter_set@, ov.prefix, 0) == first_match_from(
                        filter_set@,
                        ov.prefix,
                        j as int,
                    ),
                    Some(fj) => fj < filter_set@.len() && first_match_from(
                        filter_set@,
                        ov.prefix,
                        0,
                    ) == Some(fj as int),
                }),
            decreases filter_set@.len() - j + (if found is None {
                1int
            } else {
                0int
            }),
        {
            if filter_set[j].prefix.covers(&o.prefix) {
                found = Some(j);
            } else {
                proof {
                    assert(first_match_from(filter_set@, ov.prefix, j as int) == first_match_from(
                        filter_set@,
                        ov.prefix,
                        j + 1,
                    ));
                }
                j += 1;
            }
        }
        let keep: bool;
        match found {
            None => {
                proof {
                    assert(spec_first_match(filter_set@, ov.prefix) is None);
                    assert(spec_eval_object(ov, filter_set@) is None);
                }
                keep = false;
            },
            Some(fj) => {
                let rule = filter_set[fj];
                if !rule.allow {
                    keep = false;
                } else {
                    let eff: i32 = match o.max_length {
                        None => rule.max_len,
                        Some(d) => {
                            let d1 = if d > rule.max_len {
                                rule.max_len
                            } else {
                                d
                            };
                            if d1 < rule.min_len {
                                rule.min_len
                            } else {
                                d1
                            }
                        },
                    };
                    let bits: u8 = o.prefix.len;
                    if (bits as i32) > eff {
                        keep = false;
                    } else {
                        o.max_length = Some(eff);
                        keep = true;
                    }
                }
            },
        }
        if keep {
            proof {
                assert(spec_eval_object(ov, filter_set@) == Some(o@));
                assert(ro_views(out@.push(o)) =~= ro_views(out@).push(o@));
                assert(spec_eval_all(ro_views(orig.take(k + 1)), filter_set@) =~= spec_eval_all(
                    ro_views(orig.take(k)),
                    filter_set@,
                ).push(o@));
            }
            out.push(o);
        } else {
            proof {
                assert(spec_eval_object(ov, filter_set@) is None);
                assert(spec_eval_all(ro_views(orig.take(k + 1)), filter_set@) =~= spec_eval_all(
                    ro_views(orig.take(k)),
                    filter_set@,
                ));
            }
        }
        proof {
            k = k + 1;
        }
    }
    proof {
        assert(orig.take(orig.len() as int) =~= orig);
    }
    *object_list = out;
}

/// With a well-ordered rule (minimum not above maximum), the effective
/// maximum length always lies within the rule's bounds.
pub proof fn lemma_effective_max_in_bounds(declared: Option<i32>, r: FilterSet)
    requires
        r.min_len <= r.max_len,
    ensures
        r.min_len <= spec_effective_max(declared, r) <= r.max_len,
{
}

/// A retained object never leaves evaluation with its maximum length
/// unset.
pub proof fn lemma_retained_max_length_set(o: RouteObjectV, rules: Seq<FilterSet>)
    ensures
        spec_eval_object(o, rules) matches Some(o2) ==> o2.max_length is Some,
{
}

/// A retained object's maximum length is the effective value of its
/// applicable rule, and lies within that rule's bounds whenever the rule
/// is well-ordered (minimum not above maximum).
pub proof fn lemma_retained_bounds(o: RouteObjectV, rules: Seq<FilterSet>, o2: RouteObjectV)
    requires
        spec_eval_object(o, rules) == Some(o2),
    ensures
        spec_first_match(rules, o.prefix) is Some,
        ({
            let i = spec_first_match(rules, o.prefix).unwrap();
            &&& o2.max_length == Some(spec_effective_max(o.max_length, rules[i]))
            &&& rules[i].min_len <= rules[i].max_len ==> rules[i].min_len
                <= o2.max_length.unwrap() <= rules[i].max_len
        }),
{
}

/// No false retains: a retained object's own announced length never
/// exceeds its effective maximum length; an object whose announced length
/// exceeds the effective maximum is absent from the result.
pub proof fn lemma_no_false_retains(o: RouteObjectV, rules: Seq<FilterSet>)
    ensures
        spec_eval_object(o, rules) matches Some(o2) ==> o.prefix.len as i32
            <= o2.max_length.unwrap(),
{
}

proof fn lemma_no_cover_no_match(rules: Seq<FilterSet>, p: Prefix, i: int)
    requires
        0 <= i,
        forall|j: int| i <= j < rules.len() ==> !(#[trigger] rules[j]).prefix.spec_covers(p),
    ensures
        first_match_from(rules, p, i) is None,
    decreases rules.len() - i,
{
    if i < rules.len() {
        lemma_no_cover_no_match(rules, p, i + 1);
    }
}

/// Implicit deny: an object that no rule covers is absent from the result.
pub proof fn lemma_uncovered_dropped(o: RouteObjectV, rules: Seq<FilterSet>)
    requires
        forall|j: int| 0 <= j < rules.len() ==> !(#[trigger] rules[j]).prefix.spec_covers(o.prefix),
    ensures
        spec_eval_object(o, rules) is None,
{
    lemma_no_cover_no_match(rules, o.prefix, 0);
}

proof fn lemma_first_match_props(rules: Seq<FilterSet>, p: Prefix, i0: int, i: int)
    requires
        0 <= i0,
        first_match_from(rules, p, i0) == Some(i),
    ensures
        i0 <= i < rules.len(),
        rules[i].prefix.spec_covers(p),
        forall|j: int| i0 <= j < i ==> !(#[trigger] rules[j]).prefix.spec_covers(p),
    decreases rules.len() - i0,
{
    if i0 < rules.len() && !rules[i0].prefix.spec_covers(p) {
        lemma_first_match_props(rules, p, i0 + 1, i);
    }
}

/// Priority-order determinism: in a rule list sorted ascending by
/// priority, the applicable rule's priority never exceeds the priority of
/// any other rule that also covers the object, whatever order the rules
/// stood in before sorting.
pub proof fn lemma_first_match_lowest_priority(
    rules: Seq<FilterSet>,
    p: Prefix,
    i: int,
    j: int,
)
    requires
        sorted_by_priority(rules),
        spec_first_match(rules, p) == Some(i),
        0 <= j < rules.len(),
        rules[j].prefix.spec_covers(p),
    ensures
        0 <= i < rules.len(),
        rules[i].prefix.spec_covers(p),
        rules[i].priority <= rules[j].priority,
{
    lemma_first_match_props(rules, p, 0, i);
    if j < i {
        assert(!rules[j].prefix.spec_covers(p));
    }
}

/// Deny is final: when the applicable rule denies, the object is absent
/// from the result, no matter what any later (higher-priority-number) rule
/// would have said.
pub proof fn lemma_deny_dropped(o: RouteObjectV, rules: Seq<FilterSet>, i: int)
    requires
        spec_first_match(rules, o.prefix) == Some(i),
        !rules[i].allow,
    ensures
        spec_eval_object(o, rules) is None,
{
}

/// A policy load always hands the engine a rule list sorted ascending by
/// priority.
pub proof fn lemma_sort_rules_sorted(s: Seq<FilterSet>)
    ensures
        sorted_by_priority(sort_rules(s)),
    decreases s.len(),
{
    if s.len() > 0 {
        lemma_sort_rules_sorted(s.drop_last());
        lemma_insert_sorted_sorted(sort_rules(s.drop_last()), s.last());
    }
}

/// Every element of the evaluated list is the successful evaluation of
/// some input object: a dropped object (no covering rule, a denying rule,
/// or an excessive announced length) contributes nothing to the result.
pub proof fn lemma_eval_all_from_inputs(objs: Seq<RouteObjectV>, rules: Seq<FilterSet>)
    ensures
        forall|k: int|
            0 <= k < spec_eval_all(objs, rules).len() ==> exists|j: int|
                0 <= j < objs.len() && spec_eval_object(objs[j], rules) == Some(
                    #[trigger] spec_eval_all(objs, rules)[k],
                ),
    decreases objs.len(),
{
    if objs.len() > 0 {
        lemma_eval_all_from_inputs(objs.drop_last(), rules);
        let r = spec_eval_all(objs, rules);
        let rp = spec_eval_all(objs.drop_last(), rules);
        assert forall|k: int| 0 <= k < r.len() implies exists|j: int|
            0 <= j < objs.len() && spec_eval_object(objs[j], rules) == Some(
                #[trigger] r[k],
            ) by {
            if k < rp.len() {
                assert(r[k] == rp[k]);
                let j = choose|j: int|
                    0 <= j < objs.drop_last().len() && spec_eval_object(
                        objs.drop_last()[j],
                        rules,
                    ) == Some(rp[k]);
                assert(objs.drop_last()[j] == objs[j]);
                assert(spec_eval_object(objs[j], rules) == Some(r[k]));
            } else {
                let j = objs.len() - 1;
                assert(spec_eval_object(objs[j], rules) == Some(r[k]));
            }
        }
    }
}

} // verus!
