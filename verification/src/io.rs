//! Compilation of a network and its configuration into a scenario.

use crate::constants::{DEFAULT_JAM_DENSITY, FIVE, SECONDS_PER_HOUR, TEN};
use crate::double::Double;
use crate::json::{find_text, same_text, Json, JsonView};
use crate::model::{
    default_classes, ChangeView, Demand, DemandView, FundamentalDiagram, Link, LinkID, LinkView, Node,
    NodeID, NodeType, NodeView, PipeIdx, PipeSpec, Scenario, ALL_CLASSES,
};
use std::collections::HashMap;
use vstd::prelude::*;

verus! {

// ── Faults ───────────────────────────────────────────────────────────────────

/// What is wrong with the properties of a link.
#[derive(Debug, Clone)]
pub enum LinkFault<T> {
    /// 'lanes' must be in 1..=255.
    Lanes { lanes: u64 },
    /// 'pipes' must be an array.
    PipesNotAList,
    /// Each pipe needs an integer 'lanes' in 1..=255.
    PipeLanes,
    /// Pipe class entries must be strings.
    ClassNotText,
    UnknownClass { name: T },
    /// 'moves' must be an object.
    MovesNotAnObject,
    /// A 'moves' key is no link id.
    MoveKey { key: T },
    /// 'moves' values must be arrays of pipe indices.
    MovePipesNotAList,
    /// An invalid pipe index in 'moves'.
    MovePipe,
}

pub type LinkFaultView = LinkFault<Seq<char>>;

impl View for LinkFault<String> {
    type V = LinkFaultView;

    open spec fn view(&self) -> LinkFaultView {
        match *self {
            LinkFault::Lanes { lanes } => LinkFault::Lanes { lanes },
            LinkFault::PipesNotAList => LinkFault::PipesNotAList,
            LinkFault::PipeLanes => LinkFault::PipeLanes,
            LinkFault::ClassNotText => LinkFault::ClassNotText,
            LinkFault::UnknownClass { name } => LinkFault::UnknownClass { name: name@ },
            LinkFault::MovesNotAnObject => LinkFault::MovesNotAnObject,
            LinkFault::MoveKey { key } => LinkFault::MoveKey { key: key@ },
            LinkFault::MovePipesNotAList => LinkFault::MovePipesNotAList,
            LinkFault::MovePipe => LinkFault::MovePipe,
        }
    }
}

// ── Pipes ────────────────────────────────────────────────────────────────────

/// The mask `acc` with the classes named from place `i` on. The bit of a class
/// is its place among the declared ones, modulo the width of a mask.
pub open spec fn mask_from(
    names: Seq<JsonView>,
    classes: Seq<Seq<char>>,
    acc: u64,
    i: nat,
) -> Result<u64, LinkFaultView>
    decreases names.len() - i,
{
    if i >= names.len() {
        Ok(acc)
    } else {
        match names[i as int].as_text() {
            None => Err(LinkFault::ClassNotText),
            Some(name) => match crate::json::text_place(classes, name, 0) {
                None => Err(LinkFault::UnknownClass { name }),
                Some(k) => mask_from(names, classes, acc | (1u64 << ((k % 64) as u64)), i + 1),
            },
        }
    }
}

pub open spec fn mask_result(r: Result<u64, LinkFault<String>>) -> Result<u64, LinkFaultView> {
    match r {
        Ok(m) => Ok(m),
        Err(e) => Err(e@),
    }
}

/// Resolves a list of class names to a permission mask against the declared
/// classes.
pub fn class_mask_from_names(names: &Vec<Json>, classes: &Vec<String>) -> (r: Result<
    u64,
    LinkFault<String>,
>)
    ensures
        mask_result(r) == mask_from(
            crate::json::json_views(names@),
            crate::json::text_views(classes@),
            0,
            0,
        ),
{
    let ghost views = crate::json::json_views(names@);
    let ghost known = crate::json::text_views(classes@);
    let mut mask: u64 = 0;
    let mut i: usize = 0;
    while i < names.len()
        invariant
            i <= names@.len(),
            views == crate::json::json_views(names@),
            known == crate::json::text_views(classes@),
            mask_from(views, known, 0, 0) == mask_from(views, known, mask, i as nat),
        decreases names@.len() - i,
    {
        assert(views[i as int] == names@[i as int]@);
        match names[i].as_str() {
            None => {
                return Err(LinkFault::ClassNotText);
            },
            Some(name) => match find_text(classes, name) {
                None => {
                    return Err(LinkFault::UnknownClass { name: name.clone() });
                },
                Some(k) => {
                    mask = mask | (1u64 << ((k % 64) as u64));
                },
            },
        }
        i = i + 1;
    }
    Ok(mask)
}

/// One entry of 'pipes'.
pub open spec fn pipe_spec_of(p: JsonView, classes: Seq<Seq<char>>) -> Result<
    PipeSpec,
    LinkFaultView,
> {
    match p.index_at("lanes"@) {
        None => Err(LinkFault::PipeLanes),
        Some(lanes) => if lanes < 1 || lanes > 255 {
            Err(LinkFault::PipeLanes)
        } else {
            match p.list_at("classes"@) {
                None => Ok(PipeSpec { lanes: lanes as u8, class_mask: ALL_CLASSES }),
                Some(names) => match mask_from(names, classes, 0, 0) {
                    Err(e) => Err(e),
                    Ok(class_mask) => Ok(PipeSpec { lanes: lanes as u8, class_mask }),
                },
            }
        },
    }
}

/// The entries of 'pipes' from place `i` on, behind those in `acc`.
pub open spec fn pipe_specs_from(
    items: Seq<JsonView>,
    classes: Seq<Seq<char>>,
    acc: Seq<PipeSpec>,
    i: nat,
) -> Result<Seq<PipeSpec>, LinkFaultView>
    decreases items.len() - i,
{
    if i >= items.len() {
        Ok(acc)
    } else {
        match pipe_spec_of(items[i as int], classes) {
            Err(e) => Err(e),
            Ok(spec) => pipe_specs_from(items, classes, acc.push(spec), i + 1),
        }
    }
}

/// 'pipes': `[{"lanes": 1, "classes": ["bus"]}, {"lanes": 2}]`.
pub open spec fn pipe_specs_of(val: JsonView, classes: Seq<Seq<char>>) -> Result<
    Seq<PipeSpec>,
    LinkFaultView,
> {
    match val.as_list() {
        None => Err(LinkFault::PipesNotAList),
        Some(items) => pipe_specs_from(items, classes, Seq::empty(), 0),
    }
}

pub open spec fn pipe_specs_result(r: Result<Vec<PipeSpec>, LinkFault<String>>) -> Result<
    Seq<PipeSpec>,
    LinkFaultView,
> {
    match r {
        Ok(v) => Ok(v@),
        Err(e) => Err(e@),
    }
}

fn parse_pipe_spec(p: &Json, classes: &Vec<String>) -> (r: Result<PipeSpec, LinkFault<String>>)
    ensures
        match r {
            Ok(spec) => pipe_spec_of(p@, crate::json::text_views(classes@)) == Ok::<
                PipeSpec,
                LinkFaultView,
            >(spec),
            Err(e) => pipe_spec_of(p@, crate::json::text_views(classes@)) == Err::<
                PipeSpec,
                LinkFaultView,
            >(e@),
        },
{
    let lanes: u64 = match p.index_at("lanes") {
        None => {
            return Err(LinkFault::PipeLanes);
        },
        Some(lanes) => lanes,
    };
    if lanes < 1 || lanes > 255 {
        return Err(LinkFault::PipeLanes);
    }
    let class_mask: u64 = match p.get("classes") {
        None => ALL_CLASSES,
        Some(val) => match val.as_array() {
            None => ALL_CLASSES,
            Some(names) => match class_mask_from_names(names, classes) {
                Err(e) => {
                    return Err(e);
                },
                Ok(mask) => mask,
            },
        },
    };
    Ok(PipeSpec { lanes: lanes as u8, class_mask })
}

/// Reads the optional pipe partition of a link.
pub fn parse_pipe_specs(val: &Json, classes: &Vec<String>) -> (r: Result<
    Vec<PipeSpec>,
    LinkFault<String>,
>)
    ensures
        pipe_specs_result(r) == pipe_specs_of(val@, crate::json::text_views(classes@)),
{
    let items: &Vec<Json> = match val.as_array() {
        None => {
            return Err(LinkFault::PipesNotAList);
        },
        Some(items) => items,
    };
    let ghost views = crate::json::json_views(items@);
    let ghost known = crate::json::text_views(classes@);
    let mut specs: Vec<PipeSpec> = Vec::new();
    let mut i: usize = 0;
    assert(specs@ =~= Seq::empty());
    while i < items.len()
        invariant
            i <= items@.len(),
            views == crate::json::json_views(items@),
            known == crate::json::text_views(classes@),
            pipe_specs_of(val@, known) == pipe_specs_from(views, known, specs@, i as nat),
        decreases items@.len() - i,
    {
        assert(views[i as int] == items@[i as int]@);
        match parse_pipe_spec(&items[i], classes) {
            Err(e) => {
                return Err(e);
            },
            Ok(spec) => {
                specs.push(spec);
            },
        }
        i = i + 1;
    }
    Ok(specs)
}

// ── Movements ────────────────────────────────────────────────────────────────

/// The value of a decimal digit.
pub open spec fn digit(c: char) -> Option<nat> {
    if '0' <= c && c <= '9' {
        Some((c as u32 - '0' as u32) as nat)
    } else {
        None
    }
}

/// The value of the first `n` characters as decimal digits.
pub open spec fn decimal_upto(s: Seq<char>, n: nat) -> Option<nat>
    decreases n,
{
    if n == 0 {
        Some(0)
    } else {
        match (decimal_upto(s, (n - 1) as nat), digit(s[n - 1])) {
            (Some(v), Some(d)) => Some(10 * v + d),
            _ => None,
        }
    }
}

/// A text as an index: decimal digits, with an optional plus sign before them.
pub open spec fn index_of_text(s: Seq<char>) -> Option<usize> {
    let t = if s.len() > 0 && s[0] == '+' {
        s.drop_first()
    } else {
        s
    };
    if t.len() == 0 {
        None
    } else {
        match decimal_upto(t, t.len()) {
            Some(v) => if v <= usize::MAX {
                Some(v as usize)
            } else {
                None
            },
            None => None,
        }
    }
}

proof fn lemma_decimal_grows(s: Seq<char>, n: nat, m: nat)
    requires
        n <= m,
    ensures
        decimal_upto(s, n) is None ==> decimal_upto(s, m) is None,
        decimal_upto(s, m) is Some ==> decimal_upto(s, n) is Some && decimal_upto(s, n)->0
            <= decimal_upto(s, m)->0,
    decreases m,
{
    if n < m {
        lemma_decimal_grows(s, n, (m - 1) as nat);
    }
}

/// Reads a text as an index.
pub fn parse_index(s: &String) -> (r: Option<usize>)
    ensures
        r == index_of_text(s@),
{
    let mut chars: Vec<char> = Vec::new();
    assert(chars@ =~= s@.take(0));
    for c in it: s.chars()
        invariant
            it.seq() == s@,
            chars@ == s@.take(it.index() as int),
    {
        chars.push(c);
        assert(chars@ =~= s@.take(it.index() as int + 1));
    }
    assert(chars@ =~= s@);
    let from: usize = if chars.len() > 0 && chars[0] == '+' {
        1
    } else {
        0
    };
    let ghost t = if s@.len() > 0 && s@[0] == '+' {
        s@.drop_first()
    } else {
        s@
    };
    assert(t =~= chars@.skip(from as int));
    if chars.len() == from {
        return None;
    }
    let mut v: usize = 0;
    let mut i: usize = from;
    while i < chars.len()
        invariant
            from <= i <= chars@.len(),
            t == chars@.skip(from as int),
            decimal_upto(t, (i - from) as nat) == Some(v as nat),
            t.len() > 0,
            index_of_text(s@) == match decimal_upto(t, t.len()) {
                Some(v) => if v <= usize::MAX {
                    Some(v as usize)
                } else {
                    None
                },
                None => None,
            },
        decreases chars@.len() - i,
    {
        let c: char = chars[i];
        assert(c == t[i - from]);
        proof {
            lemma_decimal_grows(t, (i - from + 1) as nat, t.len());
        }
        if c < '0' || c > '9' {
            return None;
        }
        let d: usize = (c as u32 - '0' as u32) as usize;
        if v > usize::MAX / 10 {
            return None;
        }
        let tens: usize = v * 10;
        if d > usize::MAX - tens {
            return None;
        }
        v = tens + d;
        i = i + 1;
    }
    Some(v)
}

/// Pipe indices from place `i` on, behind those in `acc`.
pub open spec fn move_pipes_from(items: Seq<JsonView>, acc: Seq<PipeIdx>, i: nat) -> Result<
    Seq<PipeIdx>,
    LinkFaultView,
>
    decreases items.len() - i,
{
    if i >= items.len() {
        Ok(acc)
    } else {
        match items[i as int].as_index() {
            None => Err(LinkFault::MovePipe),
            Some(p) => if p >= 256 {
                Err(LinkFault::MovePipe)
            } else {
                move_pipes_from(items, acc.push(p as u8), i + 1)
            },
        }
    }
}

/// The pipes of one movement.
pub open spec fn move_pipes_of(val: JsonView) -> Result<Seq<PipeIdx>, LinkFaultView> {
    match val.as_list() {
        None => Err(LinkFault::MovePipesNotAList),
        Some(items) => move_pipes_from(items, Seq::empty(), 0),
    }
}

/// The movements from place `i` on, put into `acc`.
pub open spec fn moves_from(
    members: Seq<(Seq<char>, JsonView)>,
    acc: Map<LinkID, Seq<PipeIdx>>,
    i: nat,
) -> Result<Map<LinkID, Seq<PipeIdx>>, LinkFaultView>
    decreases members.len() - i,
{
    if i >= members.len() {
        Ok(acc)
    } else {
        let (key, val) = members[i as int];
        match index_of_text(key) {
            None => Err(LinkFault::MoveKey { key }),
            Some(out_link) => match move_pipes_of(val) {
                Err(e) => Err(e),
                Ok(pipes) => moves_from(members, acc.insert(out_link, pipes), i + 1),
            },
        }
    }
}

/// 'moves': `{"<out link id>": [0, 1]}`.
pub open spec fn moves_of(val: JsonView) -> Result<Map<LinkID, Seq<PipeIdx>>, LinkFaultView> {
    match val {
        JsonView::Object(members) => moves_from(members, Map::empty(), 0),
        _ => Err(LinkFault::MovesNotAnObject),
    }
}

pub open spec fn moves_result(
    r: Result<HashMap<LinkID, Vec<PipeIdx>>, LinkFault<String>>,
) -> Result<Map<LinkID, Seq<PipeIdx>>, LinkFaultView> {
    match r {
        Ok(m) => Ok(crate::model::moves_view(m@)),
        Err(e) => Err(e@),
    }
}

fn parse_move_pipes(val: &Json) -> (r: Result<Vec<PipeIdx>, LinkFault<String>>)
    ensures
        match r {
            Ok(v) => move_pipes_of(val@) == Ok::<Seq<PipeIdx>, LinkFaultView>(v@),
            Err(e) => move_pipes_of(val@) == Err::<Seq<PipeIdx>, LinkFaultView>(e@),
        },
{
    let items: &Vec<Json> = match val.as_array() {
        None => {
            return Err(LinkFault::MovePipesNotAList);
        },
        Some(items) => items,
    };
    let ghost views = crate::json::json_views(items@);
    let mut pipes: Vec<PipeIdx> = Vec::new();
    let mut i: usize = 0;
    assert(pipes@ =~= Seq::empty());
    while i < items.len()
        invariant
            i <= items@.len(),
            views == crate::json::json_views(items@),
            move_pipes_of(val@) == move_pipes_from(views, pipes@, i as nat),
        decreases items@.len() - i,
    {
        assert(views[i as int] == items@[i as int]@);
        match items[i].as_u64() {
            None => {
                return Err(LinkFault::MovePipe);
            },
            Some(p) => {
                if p >= 256 {
                    return Err(LinkFault::MovePipe);
                }
                pipes.push(p as u8);
            },
        }
        i = i + 1;
    }
    Ok(pipes)
}

/// Reads the optional movement restriction of a link.
pub fn parse_moves(val: &Json) -> (r: Result<HashMap<LinkID, Vec<PipeIdx>>, LinkFault<String>>)
    ensures
        moves_result(r) == moves_of(val@),
{
    broadcast use vstd::std_specs::hash::group_hash_axioms;

    let members: &Vec<(String, Json)> = match val {
        Json::Object(members) => members,
        _ => {
            return Err(LinkFault::MovesNotAnObject);
        },
    };
    proof {
        crate::json::lemma_json_views(*val);
    }
    let ghost views = crate::json::member_views(members@);
    let mut moves: HashMap<LinkID, Vec<PipeIdx>> = HashMap::new();
    let mut i: usize = 0;
    assert(crate::model::moves_view(moves@) =~= Map::empty());
    while i < members.len()
        invariant
            i <= members@.len(),
            views == crate::json::member_views(members@),
            moves_of(val@) == moves_from(views, crate::model::moves_view(moves@), i as nat),
        decreases members@.len() - i,
    {
        broadcast use vstd::std_specs::hash::group_hash_axioms;

        let ghost before = moves@;
        assert(views[i as int] == (members@[i as int].0@, members@[i as int].1@));
        match parse_index(&members[i].0) {
            None => {
                return Err(LinkFault::MoveKey { key: members[i].0.clone() });
            },
            Some(out_link) => match parse_move_pipes(&members[i].1) {
                Err(e) => {
                    return Err(e);
                },
                Ok(pipes) => {
                    let _ = moves.insert(out_link, pipes);
                    assert(crate::model::moves_view(moves@) =~= crate::model::moves_view(
                        before,
                    ).insert(out_link, pipes@));
                },
            },
        }
        i = i + 1;
    }
    Ok(moves)
}

// ── Links ────────────────────────────────────────────────────────────────────

/// The parameters of a link as its properties give them.
#[derive(Debug, Clone)]
pub struct LinkParams {
    pub speed: Double,
    pub capacity: Double,
    pub fd: FundamentalDiagram,
    pub num_lanes: u8,
    pub friction: Double,
    pub pipe_specs: Vec<PipeSpec>,
    pub moves: HashMap<LinkID, Vec<PipeIdx>>,
}

/// Mathematical model of [`LinkParams`].
#[verifier::ext_equal]
pub ghost struct ParamsView {
    pub speed: Double,
    pub capacity: Double,
    pub fd: FundamentalDiagram,
    pub num_lanes: u8,
    pub friction: Double,
    pub pipe_specs: Seq<PipeSpec>,
    pub moves: Map<LinkID, Seq<PipeIdx>>,
}

impl View for LinkParams {
    type V = ParamsView;

    open spec fn view(&self) -> ParamsView {
        ParamsView {
            speed: self.speed,
            capacity: self.capacity,
            fd: self.fd,
            num_lanes: self.num_lanes,
            friction: self.friction,
            pipe_specs: self.pipe_specs@,
            moves: crate::model::moves_view(self.moves@),
        }
    }
}

/// The parameters that properties give to a link, with the defaults for what
/// they leave out.
pub open spec fn params_of(props: JsonView, classes: Seq<Seq<char>>) -> Result<
    ParamsView,
    LinkFaultView,
> {
    let speed = props.number_at("speed"@).unwrap_or(Double::from_bits(TEN));
    let lanes = props.index_at("lanes"@).unwrap_or(1);
    let capacity = props.number_at("capacity"@).unwrap_or(Double::one());
    let specs = match props.field("pipes"@) {
        Some(v) => pipe_specs_of(v, classes),
        None => Ok(Seq::empty()),
    };
    let moves = match props.field("moves"@) {
        Some(v) => moves_of(v),
        None => Ok(Map::empty()),
    };
    if lanes < 1 || lanes > 255 {
        Err(LinkFault::Lanes { lanes })
    } else {
        match (specs, moves) {
            (Err(e), _) => Err(e),
            (Ok(_), Err(e)) => Err(e),
            (Ok(pipe_specs), Ok(moves)) => Ok(
                ParamsView {
                    speed,
                    capacity,
                    fd: FundamentalDiagram {
                        u: props.number_at("fd_u"@).unwrap_or(speed),
                        w: props.number_at("fd_w"@).unwrap_or(Double::from_bits(FIVE)),
                        kx: props.number_at("fd_kx"@).unwrap_or(
                            Double::from_bits(DEFAULT_JAM_DENSITY),
                        ),
                        c: props.number_at("fd_c"@).unwrap_or(
                            capacity.over(Double::from_u64(lanes)),
                        ),
                    },
                    num_lanes: lanes as u8,
                    friction: props.number_at("friction"@).unwrap_or(Double::one()),
                    pipe_specs,
                    moves,
                },
            ),
        }
    }
}

pub open spec fn params_result(r: Result<LinkParams, LinkFault<String>>) -> Result<
    ParamsView,
    LinkFaultView,
> {
    match r {
        Ok(p) => Ok(p@),
        Err(e) => Err(e@),
    }
}

fn number_or(props: &Json, key: &str, default: Double) -> (r: Double)
    ensures
        r == props@.number_at(key@).unwrap_or(default),
{
    match props.number_at(key) {
        Some(v) => v,
        None => default,
    }
}

/// Reads the parameters of a link from its properties.
pub fn parse_link_params(props: &Json, classes: &Vec<String>) -> (r: Result<
    LinkParams,
    LinkFault<String>,
>)
    ensures
        params_result(r) == params_of(props@, crate::json::text_views(classes@)),
{
    let speed: Double = number_or(props, "speed", Double::from_bits(TEN));
    let lanes: u64 = match props.index_at("lanes") {
        Some(lanes) => lanes,
        None => 1,
    };
    if lanes < 1 || lanes > 255 {
        return Err(LinkFault::Lanes { lanes });
    }
    let capacity: Double = number_or(props, "capacity", Double::one());
    let fd = FundamentalDiagram {
        u: number_or(props, "fd_u", speed),
        w: number_or(props, "fd_w", Double::from_bits(FIVE)),
        kx: number_or(props, "fd_kx", Double::from_bits(DEFAULT_JAM_DENSITY)),
        c: number_or(props, "fd_c", capacity.over(Double::from_u64(lanes))),
    };
    let pipe_specs: Vec<PipeSpec> = match props.get("pipes") {
        Some(v) => match parse_pipe_specs(v, classes) {
            Err(e) => {
                return Err(e);
            },
            Ok(specs) => specs,
        },
        None => Vec::new(),
    };
    let moves: HashMap<LinkID, Vec<PipeIdx>> = match props.get("moves") {
        Some(v) => match parse_moves(v) {
            Err(e) => {
                return Err(e);
            },
            Ok(moves) => moves,
        },
        None => HashMap::new(),
    };
    let friction: Double = number_or(props, "friction", Double::one());
    let params = LinkParams {
        speed,
        capacity,
        fd,
        num_lanes: lanes as u8,
        friction,
        pipe_specs,
        moves,
    };
    proof {
        if props@.field("pipes"@) is None {
            assert(params@.pipe_specs =~= Seq::empty());
        }
        if props@.field("moves"@) is None {
            assert(params@.moves =~= Map::empty());
        }
    }
    Ok(params)
}

// ── Features ─────────────────────────────────────────────────────────────────

/// The shapes that a network is made of.
#[derive(Debug)]
pub enum Geometry {
    Point(Vec<Double>),
    LineString(Vec<Vec<Double>>),
    Other,
}

/// One feature of a network.
#[derive(Debug)]
pub struct Feature {
    pub properties: Option<Json>,
    pub geometry: Option<Geometry>,
}

/// Mathematical model of a [`Geometry`].
#[verifier::ext_equal]
pub ghost enum GeometryView {
    Point(Seq<Double>),
    LineString(Seq<Seq<Double>>),
    Other,
}

/// Mathematical model of a [`Feature`].
#[verifier::ext_equal]
pub ghost struct FeatureView {
    pub properties: Option<JsonView>,
    pub geometry: Option<GeometryView>,
}

impl View for Geometry {
    type V = GeometryView;

    open spec fn view(&self) -> GeometryView {
        match *self {
            Geometry::Point(p) => GeometryView::Point(p@),
            Geometry::LineString(v) => GeometryView::LineString(
                v@.map_values(|p: Vec<Double>| p@),
            ),
            Geometry::Other => GeometryView::Other,
        }
    }
}

impl View for Feature {
    type V = FeatureView;

    open spec fn view(&self) -> FeatureView {
        FeatureView {
            properties: match self.properties {
                Some(p) => Some(p@),
                None => None,
            },
            geometry: match self.geometry {
                Some(g) => Some(g@),
                None => None,
            },
        }
    }
}

pub open spec fn feature_views(f: Seq<Feature>) -> Seq<FeatureView> {
    f.map_values(|x: Feature| x@)
}

/// Why a network has no features.
#[derive(Debug, Clone, Copy, PartialEq, Eq, Structural)]
pub enum NetworkFault {
    /// The text is no JSON.
    NotJson,
    /// The value is no GeoJSON.
    NotGeoJson,
    /// The network must be a feature collection.
    NotACollection,
}

/// Why a network does not compile.
#[derive(Debug, Clone)]
pub enum CompileError<T> {
    Network { fault: NetworkFault },
    FeatureMissingProperties,
    FeatureMissingGeometry,
    NodeMissingId,
    NodeMissingX,
    NodeMissingY,
    LinkMissingId,
    LinkMissingNodeUp,
    LinkMissingNodeDown,
    Link { id: LinkID, fault: LinkFault<T> },
}

pub type CompileErrorView = CompileError<Seq<char>>;

impl View for CompileError<String> {
    type V = CompileErrorView;

    open spec fn view(&self) -> CompileErrorView {
        match *self {
            CompileError::Network { fault } => CompileError::Network { fault },
            CompileError::FeatureMissingProperties => CompileError::FeatureMissingProperties,
            CompileError::FeatureMissingGeometry => CompileError::FeatureMissingGeometry,
            CompileError::NodeMissingId => CompileError::NodeMissingId,
            CompileError::NodeMissingX => CompileError::NodeMissingX,
            CompileError::NodeMissingY => CompileError::NodeMissingY,
            CompileError::LinkMissingId => CompileError::LinkMissingId,
            CompileError::LinkMissingNodeUp => CompileError::LinkMissingNodeUp,
            CompileError::LinkMissingNodeDown => CompileError::LinkMissingNodeDown,
            CompileError::Link { id, fault } => CompileError::Link { id, fault: fault@ },
        }
    }
}

/// The type of a node by its name.
pub open spec fn node_type_of(name: Option<Seq<char>>) -> NodeType {
    match name {
        Some(s) => if s == "Entry"@ {
            NodeType::Entry
        } else if s == "Exit"@ {
            NodeType::Exit
        } else {
            NodeType::Internal
        },
        None => NodeType::Internal,
    }
}

/// The node that a point feature describes.
pub open spec fn node_of(props: JsonView, coords: Seq<Double>) -> Result<
    NodeView,
    CompileErrorView,
> {
    match props.index_at("id"@) {
        None => Err(CompileError::NodeMissingId),
        Some(id) => if coords.len() < 1 {
            Err(CompileError::NodeMissingX)
        } else if coords.len() < 2 {
            Err(CompileError::NodeMissingY)
        } else {
            Ok(
                NodeView {
                    id: id as usize,
                    node_type: node_type_of(props.text_at("type"@)),
                    incoming: Seq::empty(),
                    outgoing: Seq::empty(),
                    points: (coords[0], coords[1]),
                    signals: Seq::empty(),
                },
            )
        },
    }
}

/// The first `n` positions of a line, without those of fewer than two
/// coordinates.
pub open spec fn points_upto(coords: Seq<Seq<Double>>, n: nat) -> Seq<(Double, Double)>
    decreases n,
{
    if n == 0 {
        Seq::empty()
    } else {
        let before = points_upto(coords, (n - 1) as nat);
        let p = coords[n - 1];
        if p.len() >= 2 {
            before.push((p[0], p[1]))
        } else {
            before
        }
    }
}

/// The link that a line feature describes.
pub open spec fn link_of(
    props: JsonView,
    coords: Seq<Seq<Double>>,
    classes: Seq<Seq<char>>,
) -> Result<LinkView, CompileErrorView> {
    match (props.index_at("id"@), props.index_at("node_up"@), props.index_at("node_down"@)) {
        (None, _, _) => Err(CompileError::LinkMissingId),
        (Some(_), None, _) => Err(CompileError::LinkMissingNodeUp),
        (Some(_), Some(_), None) => Err(CompileError::LinkMissingNodeDown),
        (Some(id), Some(up), Some(down)) => match params_of(props, classes) {
            Err(fault) => Err(CompileError::Link { id: id as usize, fault }),
            Ok(p) => Ok(
                LinkView {
                    id: id as usize,
                    node_up: up as usize,
                    node_down: down as usize,
                    length: props.number_at("length"@).unwrap_or(Double::zero()),
                    speed: p.speed,
                    num_lanes: p.num_lanes,
                    capacity: p.capacity,
                    fd: p.fd,
                    points: points_upto(coords, coords.len()),
                    priority: Double::one(),
                    pipe_specs: p.pipe_specs,
                    moves: p.moves,
                    friction: p.friction,
                    pipes: Seq::empty(),
                },
            ),
        },
    }
}

fn parse_node(props: &Json, coords: &Vec<Double>) -> (r: Result<Node, CompileError<String>>)
    ensures
        match r {
            Ok(n) => node_of(props@, coords@) == Ok::<NodeView, CompileErrorView>(n@),
            Err(e) => node_of(props@, coords@) == Err::<NodeView, CompileErrorView>(e@),
        },
{
    let id: usize = match props.index_at("id") {
        None => {
            return Err(CompileError::NodeMissingId);
        },
        Some(id) => id as usize,
    };
    let node_type: NodeType = match props.text_at("type") {
        None => NodeType::Internal,
        Some(s) => if same_text(s, "Entry") {
            NodeType::Entry
        } else if same_text(s, "Exit") {
            NodeType::Exit
        } else {
            NodeType::Internal
        },
    };
    if coords.len() < 1 {
        return Err(CompileError::NodeMissingX);
    }
    if coords.len() < 2 {
        return Err(CompileError::NodeMissingY);
    }
    let node = Node {
        id,
        node_type,
        incoming_links: Vec::new(),
        outgoing_links: Vec::new(),
        points: (coords[0], coords[1]),
        signals: Vec::new(),
    };
    proof {
        assert(node@.incoming =~= Seq::empty());
        assert(node@.outgoing =~= Seq::empty());
        assert(node@.signals =~= Seq::empty());
    }
    Ok(node)
}

fn parse_points(coords: &Vec<Vec<Double>>) -> (r: Vec<(Double, Double)>)
    ensures
        r@ == points_upto(coords@.map_values(|p: Vec<Double>| p@), coords@.len()),
{
    let ghost views = coords@.map_values(|p: Vec<Double>| p@);
    let mut r: Vec<(Double, Double)> = Vec::new();
    let mut i: usize = 0;
    assert(r@ =~= Seq::empty());
    while i < coords.len()
        invariant
            i <= coords@.len(),
            views == coords@.map_values(|p: Vec<Double>| p@),
            r@ == points_upto(views, i as nat),
        decreases coords@.len() - i,
    {
        let p: &Vec<Double> = &coords[i];
        assert(views[i as int] == p@);
        if p.len() >= 2 {
            r.push((p[0], p[1]));
        }
        i = i + 1;
    }
    r
}

fn parse_link(props: &Json, coords: &Vec<Vec<Double>>, classes: &Vec<String>) -> (r: Result<
    Link,
    CompileError<String>,
>)
    ensures
        ({
            let spec = link_of(
                props@,
                coords@.map_values(|p: Vec<Double>| p@),
                crate::json::text_views(classes@),
            );
            match r {
                Ok(l) => spec == Ok::<LinkView, CompileErrorView>(l@),
                Err(e) => spec == Err::<LinkView, CompileErrorView>(e@),
            }
        }),
{
    let id: usize = match props.index_at("id") {
        None => {
            return Err(CompileError::LinkMissingId);
        },
        Some(id) => id as usize,
    };
    let up: usize = match props.index_at("node_up") {
        None => {
            return Err(CompileError::LinkMissingNodeUp);
        },
        Some(up) => up as usize,
    };
    let down: usize = match props.index_at("node_down") {
        None => {
            return Err(CompileError::LinkMissingNodeDown);
        },
        Some(down) => down as usize,
    };
    let length: Double = number_or(props, "length", Double::zero());
    let p: LinkParams = match parse_link_params(props, classes) {
        Err(fault) => {
            return Err(CompileError::Link { id, fault });
        },
        Ok(p) => p,
    };
    let points: Vec<(Double, Double)> = parse_points(coords);
    let mut link: Link = Link::new(
        id,
        up,
        down,
        length,
        p.speed,
        p.num_lanes,
        p.capacity,
        p.fd,
        points,
    );
    link.pipe_specs = p.pipe_specs;
    link.moves = p.moves;
    link.friction = p.friction;
    Ok(link)
}

// ── Network ──────────────────────────────────────────────────────────────────

/// The place behind the last of `ids` that is not above `id`.
pub open spec fn id_place(ids: Seq<usize>, id: usize) -> nat
    decreases ids.len(),
{
    if ids.len() == 0 || ids.last() <= id {
        ids.len()
    } else {
        id_place(ids.drop_last(), id)
    }
}

pub open spec fn node_ids(nodes: Seq<NodeView>) -> Seq<NodeID> {
    nodes.map_values(|n: NodeView| n.id)
}

pub open spec fn link_ids(links: Seq<LinkView>) -> Seq<LinkID> {
    links.map_values(|l: LinkView| l.id)
}

/// The node put in the order of ids, behind its equals.
pub open spec fn with_node(nodes: Seq<NodeView>, n: NodeView) -> Seq<NodeView> {
    nodes.insert(id_place(node_ids(nodes), n.id) as int, n)
}

/// The link put in the order of ids, behind its equals.
pub open spec fn with_link(links: Seq<LinkView>, l: LinkView) -> Seq<LinkView> {
    links.insert(id_place(link_ids(links), l.id) as int, l)
}

/// Nodes and links of the features from place `i` on, added to those in
/// `nodes` and `links` in the order of ids.
pub open spec fn network_from(
    features: Seq<FeatureView>,
    classes: Seq<Seq<char>>,
    nodes: Seq<NodeView>,
    links: Seq<LinkView>,
    i: nat,
) -> Result<(Seq<NodeView>, Seq<LinkView>), CompileErrorView>
    decreases features.len() - i,
{
    if i >= features.len() {
        Ok((nodes, links))
    } else {
        let f = features[i as int];
        match (f.properties, f.geometry) {
            (None, _) => Err(CompileError::FeatureMissingProperties),
            (Some(_), None) => Err(CompileError::FeatureMissingGeometry),
            (Some(props), Some(GeometryView::Point(coords))) => match node_of(props, coords) {
                Err(e) => Err(e),
                Ok(n) => network_from(features, classes, with_node(nodes, n), links, i + 1),
            },
            (Some(props), Some(GeometryView::LineString(coords))) => match link_of(
                props,
                coords,
                classes,
            ) {
                Err(e) => Err(e),
                Ok(l) => network_from(features, classes, nodes, with_link(links, l), i + 1),
            },
            (Some(_), Some(GeometryView::Other)) => network_from(
                features,
                classes,
                nodes,
                links,
                i + 1,
            ),
        }
    }
}

pub open spec fn node_views(nodes: Seq<Node>) -> Seq<NodeView> {
    nodes.map_values(|n: Node| n@)
}

fn insert_node(nodes: &mut Vec<Node>, n: Node)
    ensures
        node_views(final(nodes)@) == with_node(node_views(old(nodes)@), n@),
{
    let ghost before = nodes@;
    let ghost ids = node_ids(node_views(before));
    let mut p: usize = nodes.len();
    assert(ids.take(p as int) =~= ids);
    while p > 0 && nodes[p - 1].id > n.id
        invariant
            nodes@ == before,
            ids == node_ids(node_views(before)),
            p <= nodes@.len(),
            id_place(ids, n.id) == id_place(ids.take(p as int), n.id),
        decreases p,
    {
        assert(ids.take(p as int).drop_last() =~= ids.take(p - 1));
        p = p - 1;
    }
    assert(id_place(ids.take(p as int), n.id) == p);
    nodes.insert(p, n);
    assert(node_views(nodes@) =~= with_node(node_views(before), n@));
}

fn insert_link(links: &mut Vec<Link>, l: Link)
    ensures
        crate::simulation::link_views(final(links)@) == with_link(
            crate::simulation::link_views(old(links)@),
            l@,
        ),
{
    let ghost before = links@;
    let ghost ids = link_ids(crate::simulation::link_views(before));
    let mut p: usize = links.len();
    assert(ids.take(p as int) =~= ids);
    while p > 0 && links[p - 1].id > l.id
        invariant
            links@ == before,
            ids == link_ids(crate::simulation::link_views(before)),
            p <= links@.len(),
            id_place(ids, l.id) == id_place(ids.take(p as int), l.id),
        decreases p,
    {
        assert(ids.take(p as int).drop_last() =~= ids.take(p - 1));
        p = p - 1;
    }
    assert(id_place(ids.take(p as int), l.id) == p);
    links.insert(p, l);
    assert(crate::simulation::link_views(links@) =~= with_link(
        crate::simulation::link_views(before),
        l@,
    ));
}

/// Ids of the first `k` links that leave a node.
pub open spec fn leaving_upto(links: Seq<LinkView>, id: NodeID, k: nat) -> Seq<LinkID>
    decreases k,
{
    if k == 0 {
        Seq::empty()
    } else {
        let before = leaving_upto(links, id, (k - 1) as nat);
        if links[k - 1].node_up == id {
            before.push(links[k - 1].id)
        } else {
            before
        }
    }
}

/// Ids of the first `k` links that arrive at a node.
pub open spec fn arriving_upto(links: Seq<LinkView>, id: NodeID, k: nat) -> Seq<LinkID>
    decreases k,
{
    if k == 0 {
        Seq::empty()
    } else {
        let before = arriving_upto(links, id, (k - 1) as nat);
        if links[k - 1].node_down == id {
            before.push(links[k - 1].id)
        } else {
            before
        }
    }
}

/// The last of the first `n` nodes with an id.
pub open spec fn last_node(nodes: Seq<NodeView>, id: NodeID, n: nat) -> Option<usize>
    decreases n,
{
    if n == 0 {
        None
    } else if nodes[n - 1].id == id {
        Some((n - 1) as usize)
    } else {
        last_node(nodes, id, (n - 1) as nat)
    }
}

/// Node `i` with the first `k` links at it. Of nodes with the same id the last
/// one has the links.
pub open spec fn wired_node(
    nodes: Seq<NodeView>,
    links: Seq<LinkView>,
    i: int,
    k: nat,
) -> NodeView {
    let n = nodes[i];
    if last_node(nodes, n.id, nodes.len()) == Some(i as usize) {
        NodeView {
            incoming: arriving_upto(links, n.id, k),
            outgoing: leaving_upto(links, n.id, k),
            ..n
        }
    } else {
        n
    }
}

/// Every node with the links at it.
pub open spec fn wired(nodes: Seq<NodeView>, links: Seq<LinkView>) -> Seq<NodeView> {
    Seq::new(nodes.len(), |i: int| wired_node(nodes, links, i, links.len()))
}

proof fn lemma_last_node(nodes: Seq<NodeView>, id: NodeID, n: nat)
    requires
        n <= nodes.len() <= usize::MAX,
    ensures
        last_node(nodes, id, n) matches Some(i) ==> i < n && nodes[i as int].id == id,
    decreases n,
{
    if n > 0 && nodes[n - 1].id != id {
        lemma_last_node(nodes, id, (n - 1) as nat);
    }
}

/// Registers every link at its end nodes.
fn wire(nodes: &mut Vec<Node>, links: &Vec<Link>)
    requires
        forall|i: int|
            0 <= i < old(nodes)@.len() ==> (#[trigger] old(nodes)@[i])@.incoming == Seq::<
                LinkID,
            >::empty() && old(nodes)@[i]@.outgoing == Seq::<LinkID>::empty(),
    ensures
        node_views(final(nodes)@) == wired(
            node_views(old(nodes)@),
            crate::simulation::link_views(links@),
        ),
{
    broadcast use vstd::std_specs::hash::group_hash_axioms;

    let ghost base = node_views(nodes@);
    let ghost lv = crate::simulation::link_views(links@);
    let n: usize = nodes.len();
    let mut at: HashMap<NodeID, usize> = HashMap::new();
    let mut i: usize = 0;
    while i < n
        invariant
            n == nodes@.len(),
            i <= n,
            base == node_views(nodes@),
            forall|id: NodeID| #[trigger]
                at@.contains_key(id) <==> last_node(base, id, i as nat) is Some,
            forall|id: NodeID| #[trigger]
                at@.contains_key(id) ==> last_node(base, id, i as nat) == Some(at@[id]),
        decreases n - i,
    {
        broadcast use vstd::std_specs::hash::group_hash_axioms;

        assert(base[i as int] == nodes@[i as int]@);
        let _ = at.insert(nodes[i].id, i);
        i = i + 1;
    }
    assert(nodes@.len() <= usize::MAX);
    proof {
        assert forall|i: int| 0 <= i < n implies (#[trigger] nodes@[i])@ == wired_node(
            base,
            lv,
            i,
            0,
        ) by {
            assert(base[i] == nodes@[i]@);
            assert(nodes@[i]@ =~= wired_node(base, lv, i, 0));
        }
    }
    let mut k: usize = 0;
    while k < links.len()
        invariant
            n == nodes@.len(),
            n == base.len(),
            n <= usize::MAX,
            lv == crate::simulation::link_views(links@),
            k <= links@.len(),
            forall|id: NodeID| #[trigger]
                at@.contains_key(id) <==> last_node(base, id, n as nat) is Some,
            forall|id: NodeID| #[trigger]
                at@.contains_key(id) ==> last_node(base, id, n as nat) == Some(at@[id]),
            forall|i: int|
                0 <= i < n ==> (#[trigger] nodes@[i])@ == wired_node(base, lv, i, k as nat),
        decreases links@.len() - k,
    {
        broadcast use vstd::std_specs::hash::group_hash_axioms;

        let link: &Link = &links[k];
        assert(lv[k as int] == link@);
        proof {
            lemma_last_node(base, link.node_up, n as nat);
            lemma_last_node(base, link.node_down, n as nat);
        }
        let ghost before = nodes@;
        if let Some(u) = at.get(&link.node_up) {
            let u: usize = *u;
            nodes[u].outgoing_links.push(link.id);
        }
        if let Some(d) = at.get(&link.node_down) {
            let d: usize = *d;
            nodes[d].incoming_links.push(link.id);
        }
        proof {
            assert forall|i: int| 0 <= i < n implies (#[trigger] nodes@[i])@ == wired_node(
                base,
                lv,
                i,
                (k + 1) as nat,
            ) by {
                assert(before[i]@ == wired_node(base, lv, i, k as nat));
                assert(nodes@[i]@ =~= wired_node(base, lv, i, (k + 1) as nat));
            }
        }
        k = k + 1;
    }
    assert(node_views(nodes@) =~= wired(base, lv));
}

// ── Configuration ────────────────────────────────────────────────────────────

/// Every value of the list is a text.
pub open spec fn all_text(v: Seq<JsonView>) -> bool {
    forall|i: int| 0 <= i < v.len() ==> (#[trigger] v[i]) is Text
}

/// The declared vehicle classes: a list of texts under 'classes', else just
/// "car".
pub open spec fn classes_of(config: JsonView) -> Seq<Seq<char>> {
    match config.list_at("classes"@) {
        Some(v) => if all_text(v) {
            v.map_values(|j: JsonView| j->Text_0)
        } else {
            seq!["car"@]
        },
        None => seq!["car"@],
    }
}

pub open spec fn start_of(config: JsonView) -> Double {
    config.number_at("start_time"@).unwrap_or(Double::zero())
}

pub open spec fn duration_of(config: JsonView) -> Double {
    config.number_at("duration"@).unwrap_or(Double::from_bits(SECONDS_PER_HOUR))
}

/// The vehicle classes that a configuration declares.
pub fn config_classes(config: &Json) -> (r: Vec<String>)
    ensures
        crate::json::text_views(r@) == classes_of(config@),
{
    let items: &Vec<Json> = match config.get("classes") {
        None => {
            let r: Vec<String> = default_classes();
            assert(crate::json::text_views(r@) =~= seq!["car"@]);
            return r;
        },
        Some(v) => match v.as_array() {
            None => {
                let r: Vec<String> = default_classes();
                assert(crate::json::text_views(r@) =~= seq!["car"@]);
                return r;
            },
            Some(items) => items,
        },
    };
    let ghost views = crate::json::json_views(items@);
    let mut r: Vec<String> = Vec::new();
    let mut i: usize = 0;
    while i < items.len()
        invariant
            views == crate::json::json_views(items@),
            config@.list_at("classes"@) == Some(views),
            i <= items@.len(),
            r@.len() == i,
            forall|k: int| 0 <= k < i ==> (#[trigger] views[k]) is Text && r@[k]@ == views[k]->Text_0,
        decreases items@.len() - i,
    {
        assert(views[i as int] == items@[i as int]@);
        match items[i].as_str() {
            None => {
                assert(!all_text(views));
                let r: Vec<String> = default_classes();
                assert(crate::json::text_views(r@) =~= seq!["car"@]);
                return r;
            },
            Some(s) => {
                r.push(s.clone());
            },
        }
        i = i + 1;
    }
    assert(crate::json::text_views(r@) =~= classes_of(config@));
    r
}

/// Start of the simulated time.
pub fn config_start(config: &Json) -> (r: Double)
    ensures
        r == start_of(config@),
{
    number_or(config, "start_time", Double::zero())
}

/// Length of the simulated time.
pub fn config_duration(config: &Json) -> (r: Double)
    ensures
        r == duration_of(config@),
{
    number_or(config, "duration", Double::from_bits(SECONDS_PER_HOUR))
}

// ── Compilation ──────────────────────────────────────────────────────────────

/// What compilation makes of a network, with a schedule and exclusions for the
/// simulation.
pub open spec fn compiles_to(
    features: Seq<FeatureView>,
    demand: Seq<DemandView>,
    config: JsonView,
    schedule: Seq<ChangeView>,
    excluded: Seq<LinkID>,
    r: Result<Scenario, CompileError<String>>,
) -> bool {
    match network_from(features, classes_of(config), Seq::empty(), Seq::empty(), 0) {
        Err(e) => r matches Err(x) && x@ == e,
        Ok((nodes, links)) => {
            &&& r matches Ok(s)
            &&& node_views(s.nodes@) == wired(nodes, links)
            &&& crate::simulation::link_views(s.links@) == links
            &&& s.vehicles@.len() == 0
            &&& crate::model::demand_views(s.demand@) == demand
            &&& s.start_time == start_of(config)
            &&& s.duration == duration_of(config)
            &&& crate::json::text_views(s.classes@) == classes_of(config)
            &&& crate::simulation::schedule_views(s.link_schedule@) == schedule
            &&& s.assignment_excluded@ == excluded
        },
    }
}

/// Builds a scenario from the features of a network. Nodes and links are put
/// in the order of their ids.
pub fn compile_scenario_from_features(
    features: &Vec<Feature>,
    demand: Vec<Demand>,
    config: &Json,
) -> (r: Result<Scenario, CompileError<String>>)
    ensures
        compiles_to(
            feature_views(features@),
            crate::model::demand_views(demand@),
            config@,
            Seq::empty(),
            Seq::empty(),
            r,
        ),
{
    let classes: Vec<String> = config_classes(config);
    let ghost fv = feature_views(features@);
    let ghost known = crate::json::text_views(classes@);
    let mut nodes: Vec<Node> = Vec::new();
    let mut links: Vec<Link> = Vec::new();
    let mut i: usize = 0;
    assert(node_views(nodes@) =~= Seq::empty());
    assert(crate::simulation::link_views(links@) =~= Seq::empty());
    let ghost whole = network_from(fv, known, Seq::empty(), Seq::empty(), 0);
    while i < features.len()
        invariant
            fv == feature_views(features@),
            known == crate::json::text_views(classes@),
            known == classes_of(config@),
            whole == network_from(fv, known, Seq::empty(), Seq::empty(), 0),
            i <= features@.len(),
            whole == network_from(
                fv,
                known,
                node_views(nodes@),
                crate::simulation::link_views(links@),
                i as nat,
            ),
            forall|k: int|
                0 <= k < nodes@.len() ==> (#[trigger] nodes@[k])@.incoming == Seq::<
                    LinkID,
                >::empty() && nodes@[k]@.outgoing == Seq::<LinkID>::empty(),
        decreases features@.len() - i,
    {
        let f: &Feature = &features[i];
        assert(fv[i as int] == f@);
        let props: &Json = match &f.properties {
            None => {
                return Err(CompileError::FeatureMissingProperties);
            },
            Some(props) => props,
        };
        match &f.geometry {
            None => {
                return Err(CompileError::FeatureMissingGeometry);
            },
            Some(Geometry::Point(coords)) => match parse_node(props, coords) {
                Err(e) => {
                    return Err(e);
                },
                Ok(n) => {
                    let ghost before = nodes@;
                    let ghost nv = n@;
                    let ghost place = id_place(node_ids(node_views(before)), n.id) as int;
                    insert_node(&mut nodes, n);
                    proof {
                        lemma_id_place(node_ids(node_views(before)), nv.id);
                        assert(node_views(nodes@).len() == nodes@.len());
                        assert(node_views(before).len() == before.len());
                        assert forall|k: int| 0 <= k < nodes@.len() implies (
                        #[trigger] nodes@[k])@.incoming == Seq::<LinkID>::empty()
                            && nodes@[k]@.outgoing == Seq::<LinkID>::empty() by {
                            assert(nodes@[k]@ == node_views(nodes@)[k]);
                            assert(node_views(nodes@)[k] == node_views(before).insert(place, nv)[k]);
                            if k < place {
                                assert(node_views(before)[k] == before[k]@);
                            } else if k > place {
                                assert(node_views(before)[k - 1] == before[k - 1]@);
                            }
                        }
                    }
                },
            },
            Some(Geometry::LineString(coords)) => match parse_link(props, coords, &classes) {
                Err(e) => {
                    return Err(e);
                },
                Ok(l) => {
                    insert_link(&mut links, l);
                },
            },
            Some(Geometry::Other) => {},
        }
        i = i + 1;
    }
    wire(&mut nodes, &links);
    let start_time: Double = config_start(config);
    let duration: Double = config_duration(config);
    let s = Scenario {
        nodes,
        links,
        vehicles: Vec::new(),
        demand,
        start_time,
        duration,
        classes,
        link_schedule: Vec::new(),
        assignment_excluded: Vec::new(),
    };
    proof {
        assert(crate::simulation::schedule_views(s.link_schedule@) =~= Seq::empty());
        assert(s.assignment_excluded@ =~= Seq::empty());
    }
    Ok(s)
}

pub proof fn lemma_id_place(ids: Seq<usize>, id: usize)
    ensures
        id_place(ids, id) <= ids.len(),
    decreases ids.len(),
{
    if ids.len() > 0 && ids.last() > id {
        lemma_id_place(ids.drop_last(), id);
    }
}

// ── Laws ─────────────────────────────────────────────────────────────────────

pub open spec fn ascending(ids: Seq<usize>) -> bool {
    forall|i: int, j: int| 0 <= i < j < ids.len() ==> #[trigger] ids[i] <= #[trigger] ids[j]
}

pub(crate) proof fn lemma_place_ascends(ids: Seq<usize>, id: usize)
    requires
        ascending(ids),
    ensures
        id_place(ids, id) <= ids.len(),
        ascending(ids.insert(id_place(ids, id) as int, id)),
        forall|i: int| 0 <= i < id_place(ids, id) ==> #[trigger] ids[i] <= id,
        forall|i: int| id_place(ids, id) <= i < ids.len() ==> #[trigger] ids[i] > id,
    decreases ids.len(),
{
    if ids.len() > 0 {
        if ids.last() > id {
            let rest = ids.drop_last();
            assert forall|i: int, j: int| 0 <= i < j < rest.len() implies #[trigger] rest[i]
                <= #[trigger] rest[j] by {
                assert(ids[i] <= ids[j]);
            }
            lemma_place_ascends(rest, id);
            assert forall|i: int| id_place(ids, id) <= i < ids.len() implies #[trigger] ids[i]
                > id by {
                if i < rest.len() {
                    assert(rest[i] == ids[i]);
                }
            }
            assert forall|i: int| 0 <= i < id_place(ids, id) implies #[trigger] ids[i] <= id by {
                assert(rest[i] == ids[i]);
            }
        } else {
            assert forall|i: int| 0 <= i < ids.len() implies #[trigger] ids[i] <= id by {
                if i < ids.len() - 1 {
                    assert(ids[i] <= ids[ids.len() - 1]);
                }
            }
        }
    }
}

proof fn lemma_network_ascends(
    features: Seq<FeatureView>,
    classes: Seq<Seq<char>>,
    nodes: Seq<NodeView>,
    links: Seq<LinkView>,
    i: nat,
)
    requires
        ascending(node_ids(nodes)),
        ascending(link_ids(links)),
    ensures
        network_from(features, classes, nodes, links, i) matches Ok(r) ==> ascending(
            node_ids(r.0),
        ) && ascending(link_ids(r.1)),
    decreases features.len() - i,
{
    if i < features.len() {
        let f = features[i as int];
        match (f.properties, f.geometry) {
            (Some(props), Some(GeometryView::Point(coords))) => {
                if let Ok(n) = node_of(props, coords) {
                    let ids = node_ids(nodes);
                    lemma_place_ascends(ids, n.id);
                    assert(node_ids(with_node(nodes, n)) =~= ids.insert(
                        id_place(ids, n.id) as int,
                        n.id,
                    ));
                    lemma_network_ascends(features, classes, with_node(nodes, n), links, i + 1);
                }
            },
            (Some(props), Some(GeometryView::LineString(coords))) => {
                if let Ok(l) = link_of(props, coords, classes) {
                    let ids = link_ids(links);
                    lemma_place_ascends(ids, l.id);
                    assert(link_ids(with_link(links, l)) =~= ids.insert(
                        id_place(ids, l.id) as int,
                        l.id,
                    ));
                    lemma_network_ascends(features, classes, nodes, with_link(links, l), i + 1);
                }
            },
            (Some(_), Some(GeometryView::Other)) => {
                lemma_network_ascends(features, classes, nodes, links, i + 1);
            },
            _ => {},
        }
    }
}

/// A compiled network has its nodes and its links in the order of their ids.
pub proof fn law_network_in_order(features: Seq<FeatureView>, classes: Seq<Seq<char>>)
    ensures
        network_from(features, classes, Seq::empty(), Seq::empty(), 0) matches Ok(r) ==> ascending(
            node_ids(r.0),
        ) && ascending(link_ids(r.1)),
{
    lemma_network_ascends(features, classes, Seq::empty(), Seq::empty(), 0);
}

/// Link `l` is one of the first `k`, and leaves the node.
pub open spec fn leaves(links: Seq<LinkView>, id: NodeID, l: LinkID, k: nat) -> bool {
    exists|j: int| 0 <= j < k && (#[trigger] links[j]).id == l && links[j].node_up == id
}

/// Link `l` is one of the first `k`, and arrives at the node.
pub open spec fn arrives(links: Seq<LinkView>, id: NodeID, l: LinkID, k: nat) -> bool {
    exists|j: int| 0 <= j < k && (#[trigger] links[j]).id == l && links[j].node_down == id
}

proof fn lemma_ends(links: Seq<LinkView>, id: NodeID, k: nat)
    requires
        k <= links.len(),
    ensures
        forall|l: LinkID| #[trigger]
            leaving_upto(links, id, k).contains(l) <==> leaves(links, id, l, k),
        forall|l: LinkID| #[trigger]
            arriving_upto(links, id, k).contains(l) <==> arrives(links, id, l, k),
    decreases k,
{
    if k > 0 {
        let m = (k - 1) as nat;
        lemma_ends(links, id, m);
        let (a, b) = (leaving_upto(links, id, m), leaving_upto(links, id, k));
        let (c, d) = (arriving_upto(links, id, m), arriving_upto(links, id, k));
        let last = links[k - 1];
        assert forall|l: LinkID| #[trigger] b.contains(l) <==> leaves(links, id, l, k) by {
            if b.contains(l) {
                let i = choose|i: int| 0 <= i < b.len() && b[i] == l;
                if i < a.len() {
                    assert(a[i] == l);
                    assert(a.contains(l));
                    assert(leaves(links, id, l, m));
                } else {
                    assert(links[k - 1].id == l);
                }
            }
            if leaves(links, id, l, k) {
                let j = choose|j: int|
                    0 <= j < k && (#[trigger] links[j]).id == l && links[j].node_up == id;
                if j < m {
                    assert(leaves(links, id, l, m));
                    assert(a.contains(l));
                    let i = choose|i: int| 0 <= i < a.len() && a[i] == l;
                    assert(b[i] == l);
                } else {
                    assert(b[b.len() - 1] == l);
                }
            }
        }
        assert forall|l: LinkID| #[trigger] d.contains(l) <==> arrives(links, id, l, k) by {
            if d.contains(l) {
                let i = choose|i: int| 0 <= i < d.len() && d[i] == l;
                if i < c.len() {
                    assert(c[i] == l);
                    assert(c.contains(l));
                    assert(arrives(links, id, l, m));
                } else {
                    assert(links[k - 1].id == l);
                }
            }
            if arrives(links, id, l, k) {
                let j = choose|j: int|
                    0 <= j < k && (#[trigger] links[j]).id == l && links[j].node_down == id;
                if j < m {
                    assert(arrives(links, id, l, m));
                    assert(c.contains(l));
                    let i = choose|i: int| 0 <= i < c.len() && c[i] == l;
                    assert(d[i] == l);
                } else {
                    assert(d[d.len() - 1] == l);
                }
            }
        }
    }
}

/// The topology follows from the links: where no other node has its id, a node
/// has among its outgoing links exactly those that begin at it, and among its
/// incoming links exactly those that end at it.
pub proof fn law_topology_follows_links(nodes: Seq<NodeView>, links: Seq<LinkView>, i: int)
    requires
        0 <= i < nodes.len() <= usize::MAX,
        forall|j: int| 0 <= j < nodes.len() && j != i ==> (#[trigger] nodes[j]).id != nodes[i].id,
    ensures
        forall|l: LinkID| #[trigger]
            wired(nodes, links)[i].outgoing.contains(l) <==> leaves(
                links,
                nodes[i].id,
                l,
                links.len(),
            ),
        forall|l: LinkID| #[trigger]
            wired(nodes, links)[i].incoming.contains(l) <==> arrives(
                links,
                nodes[i].id,
                l,
                links.len(),
            ),
{
    lemma_only_node(nodes, i, nodes.len());
    lemma_ends(links, nodes[i].id, links.len());
}

proof fn lemma_only_node(nodes: Seq<NodeView>, i: int, n: nat)
    requires
        0 <= i < n <= nodes.len() <= usize::MAX,
        forall|j: int| 0 <= j < nodes.len() && j != i ==> (#[trigger] nodes[j]).id != nodes[i].id,
    ensures
        last_node(nodes, nodes[i].id, n) == Some(i as usize),
    decreases n,
{
    if i < n - 1 {
        assert(nodes[n - 1].id != nodes[i].id);
        lemma_only_node(nodes, i, (n - 1) as nat);
    }
}

} // verus!
