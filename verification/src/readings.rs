//! What is read from networks, settings and requests, told by what stands in them.

use crate::benchmarks::BenchmarkResult;
use crate::double::{whole, Double};
use crate::io::{
    classes_of, decimal_upto, duration_of, index_of_text, mask_from, move_pipes_from, moves_from,
    move_pipes_of, node_type_of, params_of, pipe_spec_of, pipe_specs_from, points_upto, start_of,
    LinkFaultView,
};
use crate::json::JsonView;
use crate::model::{mask_allows, LinkID, NodeType, PipeIdx, PipeSpec};
use crate::reference::ObservedRecord;
use crate::requests::{failed_upto, record_fault_from, stem_of, RequestFault};
use crate::verification::CheckStatus;
use vstd::prelude::*;

verus! {

// ── Classes ──────────────────────────────────────────────────────────────────

/// The class stands in the list, by its name.
pub open spec fn is_named(names: Seq<JsonView>, class: Seq<char>, i: int) -> bool {
    exists|j: int| i <= j < names.len() && (#[trigger] names[j]).as_text() == Some(class)
}

proof fn lemma_place(v: Seq<Seq<char>>, t: Seq<char>, i: nat)
    requires
        v.len() <= 64,
    ensures
        match crate::json::text_place(v, t, i) {
            Some(k) => i <= k < v.len() && v[k as int] == t,
            None => forall|k: int| i <= k < v.len() ==> #[trigger] v[k] != t,
        },
    decreases v.len() - i,
{
    if i < v.len() && v[i as int] != t {
        lemma_place(v, t, i + 1);
    }
}

/// A permission mask has the bit of exactly those declared classes that are listed by
/// name, and of those it had before; a name that is not declared is an error.
pub proof fn law_mask_has_the_listed_classes(
    names: Seq<JsonView>,
    classes: Seq<Seq<char>>,
    acc: u64,
    i: nat,
    c: int,
)
    requires
        classes.len() <= 64,
        forall|a: int, b: int|
            0 <= a < b < classes.len() ==> #[trigger] classes[a] != #[trigger] classes[b],
        0 <= c < classes.len(),
        i <= names.len(),
    ensures
        mask_from(names, classes, acc, i) matches Ok(m) ==> (mask_allows(m, c as usize)
            <==> mask_allows(acc, c as usize) || is_named(names, classes[c], i as int)),
        mask_from(names, classes, acc, i) is Ok <==> forall|j: int|
            i <= j < names.len() ==> (#[trigger] names[j]).as_text() is Some && classes.contains(
                names[j].as_text()->0,
            ),
    decreases names.len() - i,
{
    if i < names.len() {
        let first = names[i as int];
        if let Some(name) = first.as_text() {
            lemma_place(classes, name, 0);
            if let Some(k) = crate::json::text_place(classes, name, 0) {
                assert(classes[k as int] == name);
                let bit = 1u64 << ((k % 64) as u64);
                law_mask_has_the_listed_classes(names, classes, acc | bit, i + 1, c);
                crate::steps::law_masks_list_classes(acc, bit, c as usize, c as usize);
                crate::steps::law_masks_list_classes(acc, bit, k, c as usize);
                assert(mask_allows(acc | bit, c as usize) <==> mask_allows(acc, c as usize) || k
                    == c);
                assert(is_named(names, classes[c], i as int) <==> k == c || is_named(
                    names,
                    classes[c],
                    i as int + 1,
                )) by {
                    if is_named(names, classes[c], i as int) {
                        let j = choose|j: int|
                            i <= j < names.len() && (#[trigger] names[j]).as_text() == Some(
                                classes[c],
                            );
                        if j > i {
                            assert(names[j].as_text() == Some(classes[c]));
                        }
                    }
                }
            }
        }
    }
}

/// The specifications of a partition are read one by one, in their order; lanes from 1 to
/// 255, and without a list of classes every class.
pub proof fn law_pipes_are_read_in_order(
    items: Seq<JsonView>,
    classes: Seq<Seq<char>>,
    acc: Seq<PipeSpec>,
    i: nat,
)
    requires
        i <= items.len(),
    ensures
        pipe_specs_from(items, classes, acc, i) matches Ok(r) ==> {
            &&& r.len() == acc.len() + (items.len() - i)
            &&& forall|k: int| 0 <= k < acc.len() ==> #[trigger] r[k] == acc[k]
            &&& forall|k: int|
                #![trigger items[k]]
                i <= k < items.len() ==> {
                    let spec = r[acc.len() + k - i];
                    &&& items[k].index_at("lanes"@) == Some(spec.lanes as u64)
                    &&& spec.lanes >= 1
                    &&& items[k].list_at("classes"@) is None ==> spec.class_mask == u64::MAX
                    &&& items[k].list_at("classes"@) is Some ==> mask_from(
                        items[k].list_at("classes"@)->0,
                        classes,
                        0,
                        0,
                    ) == Ok::<u64, LinkFaultView>(spec.class_mask)
                }
        },
        forall|k: int|
            #![trigger items[k]]
            i <= k < items.len() && (items[k].index_at("lanes"@) is None || items[k].index_at(
                "lanes"@,
            )->0 < 1 || items[k].index_at("lanes"@)->0 > 255) ==> pipe_specs_from(
                items,
                classes,
                acc,
                i,
            ) is Err,
    decreases items.len() - i,
{
    if i < items.len() {
        if let Ok(spec) = pipe_spec_of(items[i as int], classes) {
            law_pipes_are_read_in_order(items, classes, acc.push(spec), i + 1);
            if let Ok(r) = pipe_specs_from(items, classes, acc, i) {
                assert(r[acc.len() as int] == acc.push(spec)[acc.len() as int]);
                assert forall|k: int| 0 <= k < acc.len() implies #[trigger] r[k] == acc[k] by {
                    assert(r[k] == acc.push(spec)[k]);
                }
            }
        }
    }
}

// ── Movements ────────────────────────────────────────────────────────────────

/// Numbers are read by their decimal digits: one more digit makes ten times the number and
/// the digit, and what is no digit makes it no number.
pub proof fn law_numbers_are_decimal(s: Seq<char>, n: nat)
    requires
        n < s.len(),
    ensures
        decimal_upto(s, n + 1) is Some <==> decimal_upto(s, n) is Some && '0' <= s[n as int] <= '9',
        decimal_upto(s, n + 1) is Some ==> decimal_upto(s, n + 1)->0 == 10 * decimal_upto(s, n)->0
            + (s[n as int] as int - '0' as int),
        decimal_upto(s, 0) == Some(0nat),
{
}

/// The pipes of a movement are read in their order, each below 256.
pub proof fn law_movement_pipes_are_read_in_order(
    items: Seq<JsonView>,
    acc: Seq<PipeIdx>,
    i: nat,
)
    requires
        i <= items.len(),
    ensures
        move_pipes_from(items, acc, i) is Ok <==> forall|k: int|
            i <= k < items.len() ==> (#[trigger] items[k]).as_index() is Some
                && items[k].as_index()->0 < 256,
        move_pipes_from(items, acc, i) matches Ok(r) ==> {
            &&& r.len() == acc.len() + (items.len() - i)
            &&& forall|k: int| 0 <= k < acc.len() ==> #[trigger] r[k] == acc[k]
            &&& forall|k: int|
                i <= k < items.len() ==> (#[trigger] items[k]).as_index() == Some(
                    r[acc.len() + k - i] as u64,
                )
        },
    decreases items.len() - i,
{
    if i < items.len() {
        if let Some(p) = items[i as int].as_index() {
            if p < 256 {
                law_movement_pipes_are_read_in_order(items, acc.push(p as u8), i + 1);
                if let Ok(r) = move_pipes_from(items, acc, i) {
                    assert(r[acc.len() as int] == acc.push(p as u8)[acc.len() as int]);
                    assert forall|k: int| 0 <= k < acc.len() implies #[trigger] r[k] == acc[k] by {
                        assert(r[k] == acc.push(p as u8)[k]);
                    }
                }
            }
        }
    }
}

/// Every member of the movements gives the pipes of the link that its key names; of
/// several with one key the last one counts.
pub proof fn law_movements_are_read_by_key(
    members: Seq<(Seq<char>, JsonView)>,
    acc: Map<LinkID, Seq<PipeIdx>>,
    i: nat,
    k: int,
)
    requires
        i <= k < members.len(),
        index_of_text(members[k].0) is Some,
        forall|j: int|
            k < j < members.len() ==> index_of_text((#[trigger] members[j]).0) != index_of_text(
                members[k].0,
            ),
    ensures
        moves_from(members, acc, i) matches Ok(m) ==> m.contains_key(
            index_of_text(members[k].0)->0,
        ) && move_pipes_of(members[k].1) == Ok::<Seq<PipeIdx>, LinkFaultView>(
            m[index_of_text(members[k].0)->0],
        ),
    decreases members.len() - i,
{
    let (key, val) = members[i as int];
    if let Some(out) = index_of_text(key) {
        if let Ok(pipes) = move_pipes_of(val) {
            if i < k {
                law_movements_are_read_by_key(members, acc.insert(out, pipes), i + 1, k);
            } else {
                lemma_moves_kept(members, acc.insert(out, pipes), i + 1, out);
            }
        }
    }
}

proof fn lemma_moves_kept(
    members: Seq<(Seq<char>, JsonView)>,
    acc: Map<LinkID, Seq<PipeIdx>>,
    i: nat,
    out: LinkID,
)
    requires
        i <= members.len(),
        acc.contains_key(out),
        forall|j: int| i <= j < members.len() ==> index_of_text((#[trigger] members[j]).0) != Some(out),
    ensures
        moves_from(members, acc, i) matches Ok(m) ==> m.contains_key(out) && m[out] == acc[out],
    decreases members.len() - i,
{
    if i < members.len() {
        let (key, val) = members[i as int];
        assert(index_of_text(members[i as int].0) != Some(out));
        if let Some(o) = index_of_text(key) {
            if let Ok(pipes) = move_pipes_of(val) {
                lemma_moves_kept(members, acc.insert(o, pipes), i + 1, out);
            }
        }
    }
}

// ── Links and nodes ──────────────────────────────────────────────────────────

/// What a link does not give is taken by default: 10 m/s, one lane, a capacity of one
/// vehicle per second, waves at 5 m/s, a jam density of a fifth of a vehicle per metre and
/// lane, no friction, one pipe and every movement; and for the diagram its own speed, and
/// its capacity by lane. What it gives is taken as it is.
pub proof fn law_links_have_defaults(props: JsonView, classes: Seq<Seq<char>>)
    ensures
        params_of(props, classes) matches Ok(p) ==> {
            let lanes = if props.index_at("lanes"@) is Some {
                props.index_at("lanes"@)->0
            } else {
                1
            };
            &&& 1 <= lanes <= 255 && p.num_lanes == lanes
            &&& p.speed == if props.number_at("speed"@) is Some {
                props.number_at("speed"@)->0
            } else {
                whole(10)
            }
            &&& p.capacity == if props.number_at("capacity"@) is Some {
                props.number_at("capacity"@)->0
            } else {
                whole(1)
            }
            &&& p.fd.u == if props.number_at("fd_u"@) is Some {
                props.number_at("fd_u"@)->0
            } else {
                p.speed
            }
            &&& p.fd.w == if props.number_at("fd_w"@) is Some {
                props.number_at("fd_w"@)->0
            } else {
                whole(5)
            }
            &&& p.fd.kx == if props.number_at("fd_kx"@) is Some {
                props.number_at("fd_kx"@)->0
            } else {
                whole(1).over(whole(5))
            }
            &&& p.fd.c == if props.number_at("fd_c"@) is Some {
                props.number_at("fd_c"@)->0
            } else {
                p.capacity.over(whole(lanes as nat))
            }
            &&& p.friction == if props.number_at("friction"@) is Some {
                props.number_at("friction"@)->0
            } else {
                whole(1)
            }
            &&& props.field("pipes"@) is None ==> p.pipe_specs.len() == 0
            &&& props.field("moves"@) is None ==> p.moves == Map::<LinkID, Seq<PipeIdx>>::empty()
        },
        props.index_at("lanes"@) is Some && !(1 <= props.index_at("lanes"@)->0 <= 255)
            ==> params_of(props, classes) is Err,
{
    crate::constants::law_whole_constants();
    crate::constants::law_fraction_constants();
    crate::double::law_zero_and_one_are_whole();
    reveal(Double::spec_from_u64);
}

/// Nodes are entries and exits by their names, and internal otherwise.
pub proof fn law_node_types_are_named(name: Option<Seq<char>>)
    ensures
        node_type_of(name) == NodeType::Entry <==> name == Some("Entry"@),
        node_type_of(name) == NodeType::Exit <==> name == Some("Exit"@) && "Exit"@ != "Entry"@,
        name is None ==> node_type_of(name) == NodeType::Internal,
{
}

/// The points of a line are those of its positions that have two coordinates.
pub proof fn law_points_have_two_coordinates(coords: Seq<Seq<Double>>, n: nat)
    requires
        n <= coords.len(),
    ensures
        points_upto(coords, n) == coords.take(n as int).filter(
            |p: Seq<Double>| p.len() >= 2,
        ).map_values(|p: Seq<Double>| (p[0], p[1])),
    decreases n,
{
    reveal(Seq::filter);
    let f = |p: Seq<Double>| p.len() >= 2;
    let g = |p: Seq<Double>| (p[0], p[1]);
    if n > 0 {
        law_points_have_two_coordinates(coords, (n - 1) as nat);
        let (part, less) = (coords.take(n as int), coords.take(n - 1));
        assert(part.drop_last() =~= less);
        assert(less.filter(f).push(part.last()).map_values(g) =~= less.filter(f).map_values(
            g,
        ).push(g(part.last())));
    } else {
        assert(coords.take(0) =~= Seq::<Seq<Double>>::empty());
        assert(coords.take(0).filter(f).map_values(g) =~= Seq::<(Double, Double)>::empty());
    }
}

/// Settings have defaults: a run starts at zero, lasts an hour, and has cars.
pub proof fn law_settings_have_defaults(config: JsonView)
    ensures
        config.number_at("start_time"@) is None ==> start_of(config) == whole(0),
        config.number_at("start_time"@) is Some ==> start_of(config) == config.number_at(
            "start_time"@,
        )->0,
        config.number_at("duration"@) is None ==> duration_of(config) == whole(3600),
        config.number_at("duration"@) is Some ==> duration_of(config) == config.number_at(
            "duration"@,
        )->0,
        config.list_at("classes"@) is None ==> classes_of(config) == seq!["car"@],
        config.list_at("classes"@) matches Some(v) && (forall|i: int|
            0 <= i < v.len() ==> (#[trigger] v[i]) is Text) ==> {
            let v = config.list_at("classes"@)->0;
            classes_of(config).len() == v.len() && forall|i: int|
                0 <= i < v.len() ==> (#[trigger] v[i]) == JsonView::Text(classes_of(config)[i])
        },
{
    crate::constants::law_whole_constants();
    crate::double::law_zero_and_one_are_whole();
    if let Some(v) = config.list_at("classes"@) {
        if forall|i: int| 0 <= i < v.len() ==> (#[trigger] v[i]) is Text {
            assert forall|i: int| 0 <= i < v.len() implies (#[trigger] v[i]) == JsonView::Text(
                classes_of(config)[i],
            ) by {}
        }
    }
}

// ── Requests ─────────────────────────────────────────────────────────────────

/// Records are accepted exactly if every one of them has a window that ends after it
/// starts, and a flow or a speed; otherwise the first that has not is named.
pub proof fn law_records_have_windows_and_values(records: Seq<ObservedRecord>, i: nat)
    requires
        i <= records.len() <= usize::MAX,
    ensures
        record_fault_from(records, i) is None <==> forall|k: int|
            i <= k < records.len() ==> (#[trigger] records[k]).t_end.gt(records[k].t_start) && (
            records[k].flow_veh_h is Some || records[k].speed_kmh is Some),
        record_fault_from(records, i) matches Some(RequestFault::RecordEmpty { record }) ==> i
            <= record < records.len() && !records[record as int].t_end.gt(
            records[record as int].t_start,
        ),
        record_fault_from(records, i) matches Some(RequestFault::RecordWithoutValue { record }) ==> i
            <= record < records.len() && records[record as int].flow_veh_h is None
            && records[record as int].speed_kmh is None,
    decreases records.len() - i,
{
    if i < records.len() {
        law_records_have_windows_and_values(records, i + 1);
    }
}

/// The failed cases of a benchmark are those whose status is a failure.
pub proof fn law_failed_cases_are_counted(results: Seq<BenchmarkResult>, n: nat)
    requires
        n <= results.len(),
    ensures
        failed_upto(results, n) == results.take(n as int).filter(
            |r: BenchmarkResult| r.status == CheckStatus::Fail,
        ).len(),
    decreases n,
{
    reveal(Seq::filter);
    if n > 0 {
        law_failed_cases_are_counted(results, (n - 1) as nat);
        assert(results.take(n as int).drop_last() =~= results.take(n - 1));
    } else {
        assert(results.take(0) =~= Seq::<BenchmarkResult>::empty());
    }
}

/// The stem of a file name is what the ending `.json` is put behind.
pub proof fn law_stem_and_ending_make_the_name(s: Seq<char>)
    ensures
        stem_of(s) matches Some(t) ==> t + ".json"@ == s,
        stem_of(s + ".json"@) == Some(s),
{
    reveal_strlit(".json");
    let e = ".json"@;
    let name = s + e;
    assert(name.skip(name.len() - 5) =~= e);
    assert(name.take(name.len() - 5) =~= s);
    if let Some(t) = stem_of(s) {
        assert(t + s.skip(s.len() - 5) =~= s);
    }
}

// ── Values ───────────────────────────────────────────────────────────────────

proof fn lemma_member(m: Seq<(Seq<char>, JsonView)>, key: Seq<char>, i: nat)
    ensures
        match crate::json::first_member(m, key, i) {
            Some(v) => exists|k: int|
                i <= k < m.len() && (#[trigger] m[k]).0 == key && m[k].1 == v && forall|j: int|
                    i <= j < k ==> (#[trigger] m[j]).0 != key,
            None => forall|k: int| i <= k < m.len() ==> (#[trigger] m[k]).0 != key,
        },
    decreases m.len() - i,
{
    if i < m.len() {
        if m[i as int].0 == key {
            assert(m[i as int].1 == crate::json::first_member(m, key, i)->0);
        } else {
            lemma_member(m, key, i + 1);
            if let Some(v) = crate::json::first_member(m, key, i + 1) {
                let k = choose|k: int|
                    i + 1 <= k < m.len() && (#[trigger] m[k]).0 == key && m[k].1 == v && forall|
                        j: int,
                    |
                        i + 1 <= j < k ==> (#[trigger] m[j]).0 != key;
                assert forall|j: int| i <= j < k implies (#[trigger] m[j]).0 != key by {}
            }
        }
    }
}

/// A field of an object is its first member of that name; what is no object has none.
pub proof fn law_fields_are_first_members(m: Seq<(Seq<char>, JsonView)>, key: Seq<char>)
    ensures
        match JsonView::Object(m).field(key) {
            Some(v) => exists|k: int|
                0 <= k < m.len() && (#[trigger] m[k]).0 == key && m[k].1 == v && forall|j: int|
                    0 <= j < k ==> (#[trigger] m[j]).0 != key,
            None => forall|k: int| 0 <= k < m.len() ==> (#[trigger] m[k]).0 != key,
        },
        JsonView::Null.field(key) is None,
{
    lemma_member(m, key, 0);
}

/// Integers are read as the whole numbers that they are, below zero with their sign;
/// indices are only those that are not negative.
pub proof fn law_numbers_are_read_by_value(n: u64, k: i64, d: Double)
    requires
        k < 0,
        k > i64::MIN,
    ensures
        JsonView::Unsigned(n).as_number() == Some(whole(n as nat)),
        JsonView::Negative(k).as_number() == Some(whole((-k) as nat).negated()),
        JsonView::Float(d).as_number() == Some(d),
        JsonView::Unsigned(n).as_index() == Some(n),
        JsonView::Negative(k).as_index() is None,
        JsonView::Float(d).as_index() is None,
        JsonView::Null.as_number() is None,
{
    reveal(Double::spec_from_u64);
}

/// A number in decimals is read back as the number.
pub proof fn law_decimals_are_read_back(n: nat)
    ensures
        crate::text::decimal(n).len() > 0,
        decimal_upto(crate::text::decimal(n), crate::text::decimal(n).len()) == Some(n),
    decreases n,
{
    let s = crate::text::decimal(n);
    if n >= 10 {
        law_decimals_are_read_back(n / 10);
        let t = crate::text::decimal(n / 10);
        assert(s =~= t.push(crate::text::digit(n % 10)));
        lemma_prefix(t, s, t.len());
        lemma_digit(n % 10);
        assert(s[t.len() as int] == crate::text::digit(n % 10));
        assert(s.len() == t.len() + 1);
        assert(10 * (n / 10) + n % 10 == n);
    } else {
        lemma_digit(n);
        assert(s[0] == crate::text::digit(n));
        assert(decimal_upto(s, 0) == Some(0nat));
    }
}

proof fn lemma_digit(d: nat)
    requires
        d < 10,
    ensures
        crate::io::digit(crate::text::digit(d)) == Some(d),
{
    let c = crate::text::digit(d);
    assert(c as u32 == 48 + d);
    assert('0' as u32 == 48 && '9' as u32 == 57);
}

proof fn lemma_prefix(t: Seq<char>, s: Seq<char>, n: nat)
    requires
        n <= t.len() <= s.len(),
        forall|i: int| 0 <= i < t.len() ==> #[trigger] s[i] == t[i],
    ensures
        decimal_upto(s, n) == decimal_upto(t, n),
    decreases n,
{
    if n > 0 {
        lemma_prefix(t, s, (n - 1) as nat);
        assert(s[n - 1] == t[n - 1]);
    }
}

/// The use of the slots of a pipe is a hundred per cent where all are taken, and above
/// exactly where more are.
pub proof fn law_full_use_is_a_hundred_per_cent(peak: u64, slots: usize)
    requires
        peak < 0x1000_0000_0000,
        0 < slots < 0x1000_0000_0000,
    ensures
        crate::messages::utilisation(peak, slots).ge(whole(100)) <==> peak >= slots,
        crate::messages::utilisation(peak, slots).le(whole(100)) <==> peak <= slots,
{
    crate::constants::law_whole_constants();
    crate::double::law_zero_and_one_are_whole();
    crate::double::law_whole_numbers_ascend(0, 1);
    crate::double::law_indices_are_whole(slots, whole(0));
    reveal(Double::spec_from_u64);
    crate::double::law_whole_numbers_multiply(100, peak as nat);
    crate::double::law_whole_quotients_compare(100 * peak as nat, slots as nat, 100);
}

/// A link is read with its own ids, ends and length, a length of nothing by default, and
/// starts without pipes.
pub proof fn law_links_are_read_by_their_names(
    props: JsonView,
    coords: Seq<Seq<Double>>,
    classes: Seq<Seq<char>>,
)
    ensures
        crate::io::link_of(props, coords, classes) matches Ok(l) ==> {
            &&& props.index_at("id"@) is Some && l.id == props.index_at("id"@)->0 as usize
            &&& props.index_at("node_up"@) is Some && l.node_up == props.index_at("node_up"@)->0 as usize
            &&& props.index_at("node_down"@) is Some && l.node_down == props.index_at("node_down"@)->0 as usize
            &&& l.length == if props.number_at("length"@) is Some {
                props.number_at("length"@)->0
            } else {
                whole(0)
            }
            &&& l.pipes.len() == 0
            &&& params_of(props, classes) matches Ok(p) && l.speed == p.speed && l.capacity
                == p.capacity && l.fd == p.fd && l.num_lanes == p.num_lanes && l.friction
                == p.friction && l.pipe_specs == p.pipe_specs && l.moves == p.moves
        },
        props.index_at("id"@) is None || props.index_at("node_up"@) is None || props.index_at(
            "node_down"@,
        ) is None ==> crate::io::link_of(props, coords, classes) is Err,
{
    crate::double::law_zero_and_one_are_whole();
}

} // verus!
