//! Rendering of retained route objects: bird-format text lines and plain
//! JSON-entry values for the document writer outside the crate.
use vstd::prelude::*;
use vstd::string::StringExecFns;

use crate::parse::{ro_views, RouteObject, RouteObjectV};
use crate::prefix::{cidr_text, ip_cidr_to_string, Prefix};
use crate::text::{dec_int, i32_to_string};

verus! {

/// The text of a network as the objects are rendered: the `cidr` crate's
/// text, plus an explicit length suffix for full-length (host) networks,
/// which the crate prints bare.
pub open spec fn prefix_display(p: Prefix) -> Seq<char> {
    if !p.is_v6 && p.len == 32 {
        cidr_text(false, p.addr, 32) + "/32"@
    } else if p.is_v6 && p.len == 128 {
        cidr_text(true, p.addr, 128) + "/128"@
    } else {
        cidr_text(p.is_v6, p.addr, p.len)
    }
}

/// One bird-format line for one origin.
pub open spec fn bird_line(prefix_s: Seq<char>, max: i32, origin: Seq<char>) -> Seq<char> {
    "route "@ + prefix_s + " max "@ + dec_int(max as int) + " as "@ + origin + ";\n"@
}

/// The bird-format lines of one object, one per origin, in origin order.
pub open spec fn bird_lines(prefix_s: Seq<char>, max: i32, origins: Seq<Seq<char>>) -> Seq<char>
    decreases origins.len(),
{
    if origins.len() == 0 {
        Seq::empty()
    } else {
        bird_lines(prefix_s, max, origins.drop_last()) + bird_line(prefix_s, max, origins.last())
    }
}

/// The bird-format text of one object.
pub open spec fn bird_format_of(o: RouteObjectV) -> Seq<char> {
    bird_lines(prefix_display(o.prefix), o.max_length.unwrap(), o.origins)
}

/// The bird-format text of a whole object list, in list order.
pub open spec fn bird_output_of(objs: Seq<RouteObjectV>) -> Seq<char>
    decreases objs.len(),
{
    if objs.len() == 0 {
        Seq::empty()
    } else {
        bird_output_of(objs.drop_last()) + bird_format_of(objs.last())
    }
}

/// One entry of the JSON "roas" list: a network, its effective maximum
/// length, and one origin.
pub struct RoaEntry {
    pub prefix: String,
    pub max_length: i32,
    pub asn: String,
}

/// The mathematical value of a [`RoaEntry`].
pub struct RoaEntryV {
    pub prefix: Seq<char>,
    pub max_length: i32,
    pub asn: Seq<char>,
}

impl View for RoaEntry {
    type V = RoaEntryV;

    open spec fn view(&self) -> RoaEntryV {
        RoaEntryV { prefix: self.prefix@, max_length: self.max_length, asn: self.asn@ }
    }
}

pub open spec fn entry_views(s: Seq<RoaEntry>) -> Seq<RoaEntryV> {
    s.map_values(|e: RoaEntry| e@)
}

/// The JSON entries of one object: one per origin, in origin order.
pub open spec fn json_entries_of(o: RouteObjectV) -> Seq<RoaEntryV> {
    o.origins.map_values(
        |g: Seq<char>|
            RoaEntryV {
                prefix: prefix_display(o.prefix),
                max_length: o.max_length.unwrap(),
                asn: g,
            },
    )
}

/// The JSON entries of a whole object list, in list order.
pub open spec fn json_entries_all(objs: Seq<RouteObjectV>) -> Seq<RoaEntryV>
    decreases objs.len(),
{
    if objs.len() == 0 {
        Seq::empty()
    } else {
        json_entries_all(objs.drop_last()) + json_entries_of(objs.last())
    }
}

/// The JSON entries of concatenated object lists are the concatenated
/// entries.
pub proof fn lemma_json_entries_all_concat(a: Seq<RouteObjectV>, b: Seq<RouteObjectV>)
    ensures
        json_entries_all(a + b) == json_entries_all(a) + json_entries_all(b),
    decreases b.len(),
{
    if b.len() == 0 {
        assert(a + b =~= a);
        assert(json_entries_all(b) =~= Seq::<RoaEntryV>::empty());
        assert(json_entries_all(a) + json_entries_all(b) =~= json_entries_all(a));
    } else {
        lemma_json_entries_all_concat(a, b.drop_last());
        assert((a + b).drop_last() =~= a + b.drop_last());
        assert((a + b).last() == b.last());
        assert(json_entries_all(a) + (json_entries_all(b.drop_last()) + json_entries_of(
            b.last(),
        )) =~= (json_entries_all(a) + json_entries_all(b.drop_last())) + json_entries_of(
            b.last(),
        ));
    }
}

impl RouteObject {
    /// The network's rendered text, always carrying an explicit length.
    fn get_prefix_string(&self) -> (r: String)
        requires
            self.prefix.wf(),
        ensures
            r@ == prefix_display(self.prefix),
    {
        let mut s = ip_cidr_to_string(&self.prefix);
        if !self.prefix.is_v6 && self.prefix.len == 32 {
            s.append("/32");
        } else if self.prefix.is_v6 && self.prefix.len == 128 {
            s.append("/128");
        }
        s
    }

    /// The object's bird-format lines, one per origin.
    pub fn get_bird_format(self) -> (r: String)
        requires
            self.prefix.wf(),
            self.max_length is Some,
        ensures
            r@ == bird_format_of(self@),
    {
        let ghost ov = self@;
        let prefix_s = self.get_prefix_string();
        let max_s = i32_to_string(self.max_length.unwrap());
        let mut result = String::new();
        let mut i: usize = 0;
        proof {
            assert(ov.origins.take(0) =~= Seq::<Seq<char>>::empty());
        }
        while i < self.origins.len()
            invariant
                ov == self@,
                0 <= i <= self.origins@.len(),
                prefix_s@ == prefix_display(ov.prefix),
                max_s@ == dec_int(ov.max_length.unwrap() as int),
                result@ == bird_lines(prefix_s@, ov.max_length.unwrap(), ov.origins.take(i as int)),
            decreases self.origins@.len() - i,
        {
            let ghost before = result@;
            result.append("route ");
            result.append(prefix_s.as_str());
            result.append(" max ");
            result.append(max_s.as_str());
            result.append(" as ");
            result.append(self.origins[i].as_str());
            result.append(";\n");
            proof {
                assert(ov.origins.take(i + 1).drop_last() =~= ov.origins.take(i as int));
                assert(ov.origins.take(i + 1).last() == ov.origins[i as int]);
                assert(ov.origins[i as int] == self.origins@[i as int]@);
                assert(result@ =~= before + bird_line(
                    prefix_s@,
                    ov.max_length.unwrap(),
                    ov.origins[i as int],
                ));
            }
            i += 1;
        }
        proof {
            assert(ov.origins.take(ov.origins.len() as int) =~= ov.origins);
        }
        result
    }

    /// The object's JSON entries, one per origin.
    pub fn get_json_objects(self) -> (r: Vec<RoaEntry>)
        requires
            self.prefix.wf(),
            self.max_length is Some,
        ensures
            entry_views(r@) == json_entries_of(self@),
    {
        let ghost ov = self@;
        let prefix_s = self.get_prefix_string();
        let max = self.max_length.unwrap();
        let mut result: Vec<RoaEntry> = Vec::new();
        let mut i: usize = 0;
        proof {
            assert(entry_views(result@) =~= json_entries_of(ov).take(0));
        }
        while i < self.origins.len()
            invariant
                ov == self@,
                0 <= i <= self.origins@.len(),
                prefix_s@ == prefix_display(ov.prefix),
                max == ov.max_length.unwrap(),
                entry_views(result@) =~= json_entries_of(ov).take(i as int),
            decreases self.origins@.len() - i,
        {
            let e = RoaEntry {
                prefix: prefix_s.clone(),
                max_length: max,
                asn: self.origins[i].clone(),
            };
            proof {
                assert(e@ == json_entries_of(ov)[i as int]);
                assert(entry_views(result@.push(e)) =~= entry_views(result@).push(e@));
                assert(json_entries_of(ov).take(i + 1) =~= json_entries_of(ov).take(
                    i as int,
                ).push(json_entries_of(ov)[i as int]));
            }
            result.push(e);
            i += 1;
        }
        proof {
            assert(json_entries_of(ov).take(ov.origins.len() as int) =~= json_entries_of(ov));
        }
        result
    }
}

/// The bird-format text of the whole retained object list.
pub fn output_bird(objects: Vec<RouteObject>) -> (r: String)
    requires
        forall|k: int|
            0 <= k < objects@.len() ==> (#[trigger] objects@[k]).prefix.wf()
                && objects@[k].max_length is Some,
    ensures
        r@ == bird_output_of(ro_views(objects@)),
{
    let ghost orig = objects@;
    let mut objs = objects;
    let mut result = String::new();
    let ghost k: int = 0;
    proof {
        assert(orig.skip(0) =~= orig);
        assert(bird_output_of(ro_views(orig.take(0))) =~= Seq::<char>::empty()) by {
            assert(ro_views(orig.take(0)) =~= Seq::<RouteObjectV>::empty());
        }
    }
    while objs.len() > 0
        invariant
            0 <= k <= orig.len(),
            objs@ == orig.skip(k),
            forall|j: int|
                0 <= j < orig.len() ==> (#[trigger] orig[j]).prefix.wf() && orig[j].max_length
                    is Some,
            result@ == bird_output_of(ro_views(orig.take(k))),
        decreases objs@.len(),
    {
        let o = objs.remove(0);
        proof {
            assert(orig.skip(k).remove(0) =~= orig.skip(k + 1));
            assert(o == orig[k]);
            assert(ro_views(orig.take(k + 1)).drop_last() =~= ro_views(orig.take(k)));
            assert(ro_views(orig.take(k + 1)).last() == o@);
        }
        let line = o.get_bird_format();
        result.append(line.as_str());
        proof {
            k = k + 1;
        }
    }
    proof {
        assert(orig.take(orig.len() as int) =~= orig);
    }
    result
}

} // verus!
