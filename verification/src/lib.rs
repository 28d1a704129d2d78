//! Generator core for route-origin-authorization whitelists.
//!
//! A routing registry is a directory of text records, one file per announced
//! prefix, together with an ordered access-control policy file.  This crate
//! parses and validates the registry records, loads the policy rules, and
//! evaluates the rules over the candidate route objects, producing the list
//! of authorized route / max-length / origin triples plus the warnings that
//! were collected along the way.  Reading directories and files, rendering
//! the final JSON document and process concerns stay outside this crate.
use vstd::prelude::*;

pub mod filter;
pub mod output;
pub mod parse;
pub mod prefix;
pub mod text;

use crate::filter::{
    evaluate_filter_set, filter_warnings_of, parsed_rules_of, read_filter_set, sort_rules,
    spec_eval_all,
};
use crate::output::{
    bird_output_of, entry_views, json_entries_all, lemma_json_entries_all_concat, output_bird,
    RoaEntry,
};
use crate::parse::{
    objects_of, read_route_objects, ro_views, warnings_of, RecordFile, RouteObject,
};
use crate::text::str_views;

verus! {

/// The retained, evaluated route objects of one address family.
pub open spec fn family_objects(
    files: Seq<RecordFile>,
    filter_lines: Seq<Seq<char>>,
    is_v6: bool,
) -> Seq<parse::RouteObjectV> {
    spec_eval_all(objects_of(files, is_v6), sort_rules(parsed_rules_of(filter_lines)))
}

/// The warnings of one address family: the record warnings, then the
/// policy-line warnings.
pub open spec fn family_warnings(
    files: Seq<RecordFile>,
    filter_lines: Seq<Seq<char>>,
    is_v6: bool,
) -> Seq<Seq<char>> {
    warnings_of(files, is_v6) + filter_warnings_of(filter_lines)
}

/// One address family's pipeline: parse and validate the records, load the
/// policy, evaluate it over the objects.  The caller reads the directory
/// and the policy file and hands their contents in.
pub fn get_roa_objects(files: &Vec<RecordFile>, filter_lines: &Vec<String>, is_v6: bool) -> (r: (
    Vec<RouteObject>,
    Vec<String>,
))
    ensures
        ro_views(r.0@) == family_objects(files@, str_views(filter_lines@), is_v6),
        str_views(r.1@) == family_warnings(files@, str_views(filter_lines@), is_v6),
        forall|k: int|
            0 <= k < r.0@.len() ==> (#[trigger] r.0@[k]).prefix.wf() && r.0@[k].max_length
                is Some,
{
    let parsed = read_route_objects(files, is_v6);
    let mut objects = parsed.0;
    let mut warnings = parsed.1;
    let loaded = read_filter_set(filter_lines);
    let filters = loaded.0;
    let mut warnings_filter = loaded.1;
    proof {
        assert(str_views(warnings@ + warnings_filter@) =~= str_views(warnings@) + str_views(
            warnings_filter@,
        ));
    }
    warnings.append(&mut warnings_filter);
    evaluate_filter_set(&mut objects, &filters);
    (objects, warnings)
}

/// The bird-format text of one address family, plus its warnings.
pub fn generate_bird(files: &Vec<RecordFile>, filter_lines: &Vec<String>, is_v6: bool) -> (r: (
    String,
    Vec<String>,
))
    ensures
        r.0@ == bird_output_of(family_objects(files@, str_views(filter_lines@), is_v6)),
        str_views(r.1@) == family_warnings(files@, str_views(filter_lines@), is_v6),
{
    let result = get_roa_objects(files, filter_lines, is_v6);
    (output_bird(result.0), result.1)
}

/// The JSON entries of both address families, IPv4 first, plus the
/// warnings of both, IPv4 first.
pub fn generate_json(
    files_v4: &Vec<RecordFile>,
    filter_v4: &Vec<String>,
    files_v6: &Vec<RecordFile>,
    filter_v6: &Vec<String>,
) -> (r: (Vec<RoaEntry>, Vec<String>))
    ensures
        entry_views(r.0@) == json_entries_all(
            family_objects(files_v4@, str_views(filter_v4@), false),
        ) + json_entries_all(family_objects(files_v6@, str_views(filter_v6@), true)),
        str_views(r.1@) == family_warnings(files_v4@, str_views(filter_v4@), false)
            + family_warnings(files_v6@, str_views(filter_v6@), true),
{
    let result_v4 = get_roa_objects(files_v4, filter_v4, false);
    let mut objects = result_v4.0;
    let mut warnings = result_v4.1;
    let result_v6 = get_roa_objects(files_v6, filter_v6, true);
    let mut objects_v6 = result_v6.0;
    let mut warnings_v6 = result_v6.1;
    proof {
        assert(ro_views(objects@ + objects_v6@) =~= ro_views(objects@) + ro_views(objects_v6@));
        assert(str_views(warnings@ + warnings_v6@) =~= str_views(warnings@) + str_views(
            warnings_v6@,
        ));
        lemma_json_entries_all_concat(ro_views(objects@), ro_views(objects_v6@));
    }
    objects.append(&mut objects_v6);
    warnings.append(&mut warnings_v6);
    let ghost all = ro_views(objects@);
    let mut entries: Vec<RoaEntry> = Vec::new();
    let ghost k: int = 0;
    proof {
        assert(all.skip(0) =~= all);
        assert(ro_views(objects@.take(0)) =~= Seq::<parse::RouteObjectV>::empty());
        assert(all.take(0) =~= ro_views(objects@.take(0)));
        assert(entry_views(entries@) =~= json_entries_all(all.take(0)));
    }
    while objects.len() > 0
        invariant
            0 <= k <= all.len(),
            ro_views(objects@) == all.skip(k),
            entry_views(entries@) == json_entries_all(all.take(k)),
            forall|j: int|
                0 <= j < objects@.len() ==> (#[trigger] objects@[j]).prefix.wf()
                    && objects@[j].max_length is Some,
        decreases objects@.len(),
    {
        let ghost prev = objects@;
        let o = objects.remove(0);
        proof {
            assert(ro_views(prev) == all.skip(k));
            assert(ro_views(prev).len() == prev.len());
            assert(prev.len() > 0);
            assert(k < all.len());
            assert(ro_views(prev)[0] == prev[0]@);
            assert(all.skip(k)[0] == all[k]);
            assert(o@ == all[k]);
            assert(objects@ == prev.remove(0));
            assert(objects@.len() == prev.len() - 1);
            assert forall|j: int|
                0 <= j < objects@.len() implies #[trigger] ro_views(objects@)[j] == all.skip(
                k + 1,
            )[j] by {
                assert(objects@[j] == prev[j + 1]);
                assert(ro_views(objects@)[j] == objects@[j]@);
                assert(ro_views(prev)[j + 1] == prev[j + 1]@);
                assert(all.skip(k)[j + 1] == all[j + 1 + k]);
                assert(all.skip(k + 1)[j] == all[j + k + 1]);
            }
            assert(ro_views(objects@) =~= all.skip(k + 1));
            assert(all.take(k + 1).drop_last() =~= all.take(k));
            assert(all.take(k + 1).last() == o@);
        }
        let mut es = o.get_json_objects();
        proof {
            assert(entry_views(entries@ + es@) =~= entry_views(entries@) + entry_views(es@));
        }
        entries.append(&mut es);
        proof {
            k = k + 1;
        }
    }
    proof {
        assert(all.take(all.len() as int) =~= all);
    }
    (entries, warnings)
}

} // verus!
