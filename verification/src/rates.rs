//! What the binned rates measure: exits over time, time spent over time and length, and
//! distance over time, up to rounding.

use crate::analysis::{bin_count, bin_of, rates, Cell};
use crate::double::{normal, p2, size, units, whole, Double, TWO_52, TWO_53};
use crate::model::{LinkID, Scenario, VehicleView};
use vstd::prelude::*;

verus! {

// ── Numbers that are equal up to rounding ────────────────────────────────────

/// The two numbers differ by no more than `k` roundings: by a share of `k * 2^-52`.
pub open spec fn near(x: int, y: int, k: int) -> bool {
    TWO_52 * size(x - y) <= k * y
}

/// A positive number of full precision.
pub open spec fn exact_enough(x: Double) -> bool {
    normal(x)
}

pub(crate) proof fn lemma_near_scaled(x: int, y: int, k: int, c: int)
    requires
        near(x, y, k),
        c > 0,
    ensures
        near(x * c, y * c, k),
{
    assert(size(x * c - y * c) == size(x - y) * c) by (nonlinear_arith)
        requires
            c > 0,
    ;
    assert(TWO_52 * (size(x - y) * c) <= k * (y * c)) by (nonlinear_arith)
        requires
            TWO_52 * size(x - y) <= k * y,
            c > 0,
    ;
}

pub(crate) proof fn lemma_near_reduced(x: int, y: int, k: int, c: int)
    requires
        near(x * c, y * c, k),
        c > 0,
    ensures
        near(x, y, k),
{
    assert(size(x * c - y * c) == size(x - y) * c) by (nonlinear_arith)
        requires
            c > 0,
    ;
    assert(TWO_52 * size(x - y) <= k * y) by (nonlinear_arith)
        requires
            TWO_52 * (size(x - y) * c) <= k * (y * c),
            c > 0,
    ;
}

proof fn lemma_near_back(x: int, y: int, k: int)
    requires
        near(x, y, k),
        0 <= k <= 64,
        y >= 0,
    ensures
        near(y, x, k + 1),
        x >= 0,
{
    assert(TWO_52 * size(y - x) <= (k + 1) * x && x >= 0) by (nonlinear_arith)
        requires
            TWO_52 * size(x - y) <= k * y,
            size(y - x) == size(x - y),
            size(x - y) >= y - x,
            0 <= k <= 64,
            y >= 0,
            TWO_52 >= 0x1_0000,
    {
        let s = size(x - y);
        assert(k * y <= 64 * y) by (nonlinear_arith)
            requires
                0 <= k <= 64,
                y >= 0,
        ;
        // The error is a small share of the number itself.
        assert(65 * s <= y && x >= y - s);
        assert(k * s <= 64 * s) by (nonlinear_arith)
            requires
                0 <= k <= 64,
                s >= 0,
        ;
        assert(k * x >= k * (y - s)) by (nonlinear_arith)
            requires
                x >= y - s,
                k >= 0,
        ;
        assert(k * (y - s) == k * y - k * s) by (nonlinear_arith);
        assert((k + 1) * x == k * x + x) by (nonlinear_arith);
    }
}

pub(crate) proof fn lemma_near_chain(x: int, y: int, z: int, a: int, b: int)
    requires
        near(x, y, a),
        near(y, z, b),
        0 <= a <= 64,
        0 <= b <= 64,
        z >= 0,
    ensures
        near(x, z, a + b + 1),
{
    let (s, t) = (size(x - y), size(y - z));
    assert(TWO_52 * size(x - z) <= (a + b + 1) * z) by (nonlinear_arith)
        requires
            TWO_52 * s <= a * y,
            TWO_52 * t <= b * z,
            size(x - z) <= s + t,
            y <= z + t,
            0 <= a <= 64,
            0 <= b <= 64,
            z >= 0,
            t >= 0,
            TWO_52 >= 0x1_0000,
    {
        assert(b * z <= 64 * z) by (nonlinear_arith)
            requires
                0 <= b <= 64,
                z >= 0,
        ;
        assert(a * y <= a * z + a * t) by (nonlinear_arith)
            requires
                y <= z + t,
                a >= 0,
        ;
        assert(a * t <= 64 * t) by (nonlinear_arith)
            requires
                0 <= a <= 64,
                t >= 0,
        ;
        assert((a + b + 1) * z == a * z + b * z + z) by (nonlinear_arith);
    }
}

/// Dividing by a whole number: the quotient times the number is near the dividend.
proof fn lemma_over_whole(x: Double, d: nat)
    requires
        x.finite() && !x.negative() && !x.vanishes(),
        0 < d < TWO_53,
        normal(x.over(whole(d))),
    ensures
        near(units(x.over(whole(d))) * d, units(x), 1),
        units(x) > 0,
{
    crate::double::law_whole_numbers_have_their_value(d);
    crate::double::law_quotient_is_nearly_exact(x, whole(d));
    let (q, w) = (units(x.over(whole(d))), p2(1074));
    vstd::arithmetic::power2::lemma_pow2_pos(1074);
    vstd::arithmetic::mul::lemma_mul_is_associative(q, d as int, w);
    lemma_near_reduced(q * d, units(x), 1, w);
    crate::double::law_zero_has_no_units();
    crate::double::law_order_is_that_of_values(Double::zero(), x);
}

// ── Rates ────────────────────────────────────────────────────────────────────

/// The flow of a bin, over its length in seconds, is its exits, at 3600 seconds an hour:
/// they differ by no more than a few roundings.
pub proof fn law_flow_is_exits_per_hour(
    raw: (Double, Double),
    bin_size: Double,
    length_km: Double,
    u_kmh: Double,
)
    requires
        raw.0.finite() && raw.0.gt(Double::zero()),
        bin_size.finite() && bin_size.gt(Double::zero()),
        exact_enough(bin_size.over(whole(3600))),
        exact_enough(rates(raw, bin_size, length_km, u_kmh).flow),
    ensures
        near(
            units(rates(raw, bin_size, length_km, u_kmh).flow) * units(bin_size),
            units(raw.0) * 3600 * p2(1074),
            4,
        ),
{
    crate::constants::law_whole_constants();
    crate::double::law_zero_has_no_units();
    crate::double::law_order_is_that_of_values(Double::zero(), raw.0);
    let hours = bin_size.over(whole(3600));
    let flow = rates(raw, bin_size, length_km, u_kmh).flow;
    let (f, h, b, r, w) = (units(flow), units(hours), units(bin_size), units(raw.0), p2(1074));
    vstd::arithmetic::power2::lemma_pow2_pos(1074);
    crate::double::law_quotient_is_nearly_exact(raw.0, hours);
    lemma_over_whole(bin_size, 3600);
    crate::double::law_order_is_that_of_values(Double::zero(), flow);
    lemma_near_back(h * 3600, b, 1);
    // Flow times the bin, by way of flow times hours.
    lemma_near_scaled(b, h * 3600, 2, f);
    lemma_near_scaled(f * h, r * w, 1, 3600);
    assert(b * f == f * b) by (nonlinear_arith);
    assert(h * 3600 * f == f * h * 3600) by (nonlinear_arith);
    assert(r * w * 3600 == r * 3600 * w) by (nonlinear_arith);
    assert(r * w * 3600 >= 0) by (nonlinear_arith)
        requires
            r >= 0,
            w >= 0,
    ;
    lemma_near_chain(f * b, f * h * 3600, r * w * 3600, 2, 1);
}

/// The density of a bin, times its length in seconds, times the length of the link in
/// metres, is the vehicle-hours that were spent in it, at 3600 seconds an hour and 1000
/// metres a kilometre: they differ by no more than a few roundings.
pub proof fn law_density_is_time_spent_per_length(
    raw: (Double, Double),
    bin_size: Double,
    length: Double,
    u_kmh: Double,
)
    requires
        raw.1.finite() && raw.1.gt(Double::zero()),
        bin_size.finite() && bin_size.gt(Double::zero()),
        length.finite() && length.gt(Double::zero()),
        exact_enough(bin_size.over(whole(3600))),
        exact_enough(length.over(whole(1000))),
        exact_enough(bin_size.over(whole(3600)).times(length.over(whole(1000)))),
        exact_enough(rates(raw, bin_size, length.over(whole(1000)), u_kmh).density),
    ensures
        near(
            units(rates(raw, bin_size, length.over(whole(1000)), u_kmh).density) * (units(bin_size)
                * units(length)),
            units(raw.1) * 3_600_000 * (p2(1074) * p2(1074)),
            10,
        ),
{
    crate::constants::law_whole_constants();
    crate::double::law_zero_has_no_units();
    crate::double::law_order_is_that_of_values(Double::zero(), raw.1);
    crate::double::law_order_is_that_of_values(Double::zero(), length);
    crate::double::law_order_is_that_of_values(Double::zero(), bin_size);
    let hours = bin_size.over(whole(3600));
    let km = length.over(whole(1000));
    let area = hours.times(km);
    let density = rates(raw, bin_size, km, u_kmh).density;
    let (d, h, k, a) = (units(density), units(hours), units(km), units(area));
    let (b, l, r, w) = (units(bin_size), units(length), units(raw.1), p2(1074));
    vstd::arithmetic::power2::lemma_pow2_pos(1074);
    crate::double::law_order_is_that_of_values(Double::zero(), density);
    crate::double::law_order_is_that_of_values(Double::zero(), hours);
    crate::double::law_order_is_that_of_values(Double::zero(), km);
    crate::double::law_quotient_is_nearly_exact(raw.1, area);
    crate::double::law_product_is_nearly_exact(hours, km);
    lemma_over_whole(bin_size, 3600);
    lemma_over_whole(length, 1000);
    lemma_near_back(h * 3600, b, 1);
    lemma_near_back(k * 1000, l, 1);
    assert(h * k >= 0 && b * l >= 0 && d * l >= 0 && d * h * 3600 >= 0) by (nonlinear_arith)
        requires
            h >= 0,
            k >= 0,
            b >= 0,
            l >= 0,
            d >= 0,
    ;
    lemma_near_back(a * w, h * k, 1);
    lemma_area_chain(d, h, k, a, b, l, r, w);
}

proof fn lemma_area_chain(d: int, h: int, k: int, a: int, b: int, l: int, r: int, w: int)
    requires
        d > 0,
        h > 0,
        k > 0,
        b > 0,
        l > 0,
        r > 0,
        w > 0,
        near(b, h * 3600, 2),
        near(l, k * 1000, 2),
        near(h * k, a * w, 2),
        near(d * a, r * w, 1),
    ensures
        near(d * (b * l), r * 3_600_000 * (w * w), 10),
{
    // The length of the bin and of the link in hours and kilometres.
    let x = d * (b * l);
    let y = d * (h * 3600) * l;
    let z = d * (h * k) * 3_600_000;
    let u = (d * a) * w * 3_600_000;
    let v = r * 3_600_000 * (w * w);
    assert(d * l > 0 && d * (h * 3600) > 0 && d * 3_600_000 > 0) by (nonlinear_arith)
        requires
            d > 0,
            l > 0,
            h > 0,
    ;
    lemma_near_scaled(b, h * 3600, 2, d * l);
    assert(b * (d * l) == x) by (nonlinear_arith)
        requires
            x == d * (b * l),
    ;
    assert((h * 3600) * (d * l) == y) by (nonlinear_arith)
        requires
            y == d * (h * 3600) * l,
    ;
    lemma_near_scaled(l, k * 1000, 2, d * (h * 3600));
    assert(l * (d * (h * 3600)) == y) by (nonlinear_arith)
        requires
            y == d * (h * 3600) * l,
    ;
    assert((k * 1000) * (d * (h * 3600)) == z) by (nonlinear_arith)
        requires
            z == d * (h * k) * 3_600_000,
    ;
    lemma_near_scaled(h * k, a * w, 2, d * 3_600_000);
    assert((h * k) * (d * 3_600_000) == z) by (nonlinear_arith)
        requires
            z == d * (h * k) * 3_600_000,
    ;
    assert((a * w) * (d * 3_600_000) == u) by (nonlinear_arith)
        requires
            u == (d * a) * w * 3_600_000,
    ;
    assert(w * 3_600_000 > 0) by (nonlinear_arith)
        requires
            w > 0,
    ;
    lemma_near_scaled(d * a, r * w, 1, w * 3_600_000);
    assert((d * a) * (w * 3_600_000) == u) by (nonlinear_arith)
        requires
            u == (d * a) * w * 3_600_000,
    ;
    assert((r * w) * (w * 3_600_000) == v) by (nonlinear_arith)
        requires
            v == r * 3_600_000 * (w * w),
    ;
    assert(v >= 0) by (nonlinear_arith)
        requires
            v == r * 3_600_000 * (w * w),
            r > 0,
            w > 0,
    ;
    lemma_near_chain(z, u, v, 2, 1);
    lemma_near_chain(y, z, v, 2, 4);
    lemma_near_chain(x, y, v, 2, 7);
}

/// The speed of a bin, where there are vehicles in it, times the vehicle-hours that were
/// spent in it, is the distance that its exits stand for: one length of the link each.
/// They differ by no more than a few roundings.
pub proof fn law_speed_is_distance_over_time(
    raw: (Double, Double),
    bin_size: Double,
    length: Double,
    u_kmh: Double,
)
    requires
        raw.0.finite() && raw.0.gt(Double::zero()),
        raw.1.finite() && raw.1.gt(Double::zero()),
        bin_size.finite() && bin_size.gt(Double::zero()),
        length.finite() && length.gt(Double::zero()),
        exact_enough(bin_size.over(whole(3600))),
        exact_enough(length.over(whole(1000))),
        exact_enough(bin_size.over(whole(3600)).times(length.over(whole(1000)))),
        ({
            let r = rates(raw, bin_size, length.over(whole(1000)), u_kmh);
            exact_enough(r.flow) && exact_enough(r.density) && exact_enough(r.speed)
                && r.density.gt(whole(1).over(whole(1000)))
        }),
    ensures
        near(
            units(rates(raw, bin_size, length.over(whole(1000)), u_kmh).speed) * units(raw.1)
                * 1000,
            units(raw.0) * units(length),
            20,
        ),
{
    crate::constants::law_whole_constants();
    crate::constants::law_fraction_constants();
    crate::double::law_zero_has_no_units();
    let km = length.over(whole(1000));
    let rt = rates(raw, bin_size, km, u_kmh);
    crate::double::law_order_is_that_of_values(Double::zero(), raw.0);
    crate::double::law_order_is_that_of_values(Double::zero(), raw.1);
    crate::double::law_order_is_that_of_values(Double::zero(), length);
    crate::double::law_order_is_that_of_values(Double::zero(), bin_size);
    crate::double::law_order_is_that_of_values(Double::zero(), rt.flow);
    crate::double::law_order_is_that_of_values(Double::zero(), rt.density);
    crate::double::law_order_is_that_of_values(Double::zero(), rt.speed);
    law_flow_is_exits_per_hour(raw, bin_size, km, u_kmh);
    law_density_is_time_spent_per_length(raw, bin_size, length, u_kmh);
    crate::double::law_quotient_is_nearly_exact(rt.flow, rt.density);
    vstd::arithmetic::power2::lemma_pow2_pos(1074);
    lemma_speed_chain(
        units(rt.speed),
        units(rt.density),
        units(rt.flow),
        units(bin_size),
        units(length),
        units(raw.0),
        units(raw.1),
        p2(1074),
    );
}

proof fn lemma_speed_chain(s: int, d: int, f: int, b: int, l: int, n: int, r: int, w: int)
    requires
        s > 0,
        d > 0,
        f > 0,
        b > 0,
        l > 0,
        n > 0,
        r > 0,
        w > 0,
        near(s * d, f * w, 1),
        near(f * b, n * 3600 * w, 4),
        near(d * (b * l), r * 3_600_000 * (w * w), 10),
    ensures
        near(s * r * 1000, n * l, 20),
{
    let c = 3600 * (w * w);
    assert(c > 0) by (nonlinear_arith)
        requires
            c == 3600 * (w * w),
            w > 0,
    ;
    let x = (s * r * 1000) * c;
    let y = s * (d * (b * l));
    let z = (f * w) * (b * l);
    let v = (n * l) * c;
    assert(b * l > 0 && w * l > 0 && r * 3_600_000 * (w * w) > 0) by (nonlinear_arith)
        requires
            b > 0,
            l > 0,
            w > 0,
            r > 0,
    ;
    lemma_near_back(d * (b * l), r * 3_600_000 * (w * w), 10);
    lemma_near_scaled(r * 3_600_000 * (w * w), d * (b * l), 11, s);
    assert((r * 3_600_000 * (w * w)) * s == x) by (nonlinear_arith)
        requires
            x == (s * r * 1000) * c,
            c == 3600 * (w * w),
    ;
    assert((d * (b * l)) * s == y) by (nonlinear_arith)
        requires
            y == s * (d * (b * l)),
    ;
    lemma_near_scaled(s * d, f * w, 1, b * l);
    assert((s * d) * (b * l) == y) by (nonlinear_arith)
        requires
            y == s * (d * (b * l)),
    ;
    lemma_near_scaled(f * b, n * 3600 * w, 4, w * l);
    assert((f * b) * (w * l) == z) by (nonlinear_arith)
        requires
            z == (f * w) * (b * l),
    ;
    assert((n * 3600 * w) * (w * l) == v) by (nonlinear_arith)
        requires
            v == (n * l) * c,
            c == 3600 * (w * w),
    ;
    assert(v >= 0) by (nonlinear_arith)
        requires
            v == (n * l) * c,
            n > 0,
            l > 0,
            c > 0,
    ;
    lemma_near_chain(y, z, v, 1, 4);
    lemma_near_chain(x, y, v, 11, 6);
    lemma_near_reduced(s * r * 1000, n * l, 18, c);
    assert(18 * (n * l) <= 20 * (n * l)) by (nonlinear_arith)
        requires
            n > 0,
            l > 0,
    ;
}

// ── Links and bins ───────────────────────────────────────────────────────────

proof fn lemma_first_link(s: Scenario, id: LinkID, i: nat, l: int)
    requires
        i <= l < s.links@.len(),
        s.links@[l].id == id,
        forall|k: int| 0 <= k < l ==> (#[trigger] s.links@[k]).id != id,
    ensures
        s.find_link(id, i) == Some(l),
    decreases l - i,
{
    if i < l {
        assert(s.links@[i as int].id != id);
        lemma_first_link(s, id, i + 1, l);
    }
}

/// The rates of a link are those of its vehicle-hours and exits over its own length, in
/// kilometres, and it is given its own free-flow speed, in km/h, where it is idle.
pub proof fn law_rates_are_for_the_length_of_the_link(
    s: Scenario,
    bin_size: Double,
    id: LinkID,
    l: int,
    pipe: Option<int>,
    b: int,
)
    requires
        0 <= l < s.links@.len(),
        s.links@[l].id == id,
        forall|k: int| 0 <= k < l ==> (#[trigger] s.links@[k]).id != id,
    ensures
        ({
            let cell = Cell { start: s.start_time, bin_size, link: id, pipe, bin: b };
            let vehicles = crate::simulation::vehicle_views(s.vehicles@);
            let free = s.links@[l].fd.u.times(whole(18).over(whole(5)));
            let r = s.bin_rates(bin_size, id, pipe, b);
            &&& r == rates(
                cell.sums(vehicles, vehicles.len()),
                bin_size,
                s.links@[l].length.over(whole(1000)),
                free,
            )
            &&& r.density.le(whole(1).over(whole(1000))) ==> r.speed == free
        }),
{
    crate::constants::law_whole_constants();
    crate::constants::law_fraction_constants();
    lemma_first_link(s, id, 0, l);
}

/// Times in whole seconds fall into bins of whole seconds as division with remainder
/// puts them.
pub proof fn law_bins_divide_the_time(n: nat, d: nat)
    requires
        n < TWO_52,
        0 < d < TWO_52,
        n < usize::MAX,
    ensures
        bin_of(whole(n), whole(d)) == n / d,
{
    let b = n / d;
    vstd::arithmetic::div_mod::lemma_fundamental_div_mod(n as int, d as int);
    assert(b <= n && b * d <= n < (b + 1) * d) by (nonlinear_arith)
        requires
            n == d * b + n % d,
            0 <= n % d < d,
            b >= 0,
    ;
    crate::double::law_whole_quotients_compare(n, d, b);
    crate::double::law_whole_quotients_compare(n, d, b + 1);
    crate::double::law_indices_round_down_and_up(whole(n).over(whole(d)), b);
}

/// As many bins of whole seconds cover a duration in whole seconds as are needed, the
/// last one in part where they do not divide it.
pub proof fn law_bins_cover_the_duration(n: nat, d: nat)
    requires
        0 < n < TWO_52,
        0 < d < TWO_52,
        n < usize::MAX,
    ensures
        bin_count(whole(n), whole(d)) * d >= n,
        (bin_count(whole(n), whole(d)) - 1) * d < n,
{
    let b = ((n - 1) as nat) / d;
    vstd::arithmetic::div_mod::lemma_fundamental_div_mod(n - 1, d as int);
    assert(b < n && b * d < n <= (b + 1) * d) by (nonlinear_arith)
        requires
            n - 1 == d * b + (n - 1) % (d as int),
            0 <= (n - 1) % (d as int) < d,
            b >= 0,
            n > 0,
    ;
    crate::double::law_whole_quotients_compare(n, d, b);
    crate::double::law_whole_quotients_compare(n, d, b + 1);
    crate::double::law_indices_round_down_and_up(whole(n).over(whole(d)), b);
}

/// The vehicle-hours of a bin are the time that vehicles spend on the link within it: of
/// a stay that lies in the bin all of it, of one that covers the bin the whole bin, of
/// one that reaches into it the part from its start, or up to its end. One on another
/// link, or on another pipe than the one asked for, gives none.
pub proof fn law_stays_count_by_their_time_in_the_bin(cell: Cell, v: VehicleView, i: int)
    requires
        0 <= i < v.path.len(),
        i + 1 < v.node_times.len(),
        0 <= cell.bin < usize::MAX,
    ensures
        ({
            let a = v.node_times[i].minus(cell.start);
            let b = v.node_times[i + 1].minus(cell.start);
            let lo = Double::from_usize(cell.bin as usize).times(cell.bin_size);
            let hi = Double::from_usize((cell.bin + 1) as usize).times(cell.bin_size);
            let within = a.lt(b) && bin_of(a, cell.bin_size) <= cell.bin <= bin_of(
                b,
                cell.bin_size,
            ) && v.path[i] == cell.link && (cell.pipe matches Some(p) ==> i < v.pipes_taken.len()
                && v.pipes_taken[i] == p);
            &&& within && lo.lt(a) && b.lt(hi) ==> cell.share(v, i) == Some(
                b.minus(a).over(whole(3600)),
            )
            &&& within && a.lt(lo) && hi.lt(b) && lo.lt(hi) ==> cell.share(v, i) == Some(
                hi.minus(lo).over(whole(3600)),
            )
            &&& within && a.lt(lo) && lo.lt(b) && b.lt(hi) ==> cell.share(v, i) == Some(
                b.minus(lo).over(whole(3600)),
            )
            &&& within && lo.lt(a) && a.lt(hi) && hi.lt(b) ==> cell.share(v, i) == Some(
                hi.minus(a).over(whole(3600)),
            )
            &&& v.path[i] != cell.link ==> cell.share(v, i) is None
            &&& cell.pipe is Some && i < v.pipes_taken.len() && v.pipes_taken[i] != cell.pipe->0
                ==> cell.share(v, i) is None
            &&& b.le(a) ==> cell.share(v, i) is None
        }),
{
    crate::constants::law_whole_constants();
}

/// The statistics of a pipe carry its own lanes, and the jam density and the capacity of
/// those, in km and hours; those of a link its own.
pub proof fn law_statistics_carry_their_parameters(
    s: Scenario,
    bin_size: Double,
    id: LinkID,
    l: int,
    p: int,
    link_st: crate::analysis::LinkStats,
    pipe_st: crate::analysis::PipeStats,
)
    requires
        0 <= l < s.links@.len(),
        s.links@[l].id == id,
        forall|k: int| l < k < s.links@.len() ==> (#[trigger] s.links@[k]).id != id,
        0 <= p < s.links@[l].pipes@.len() <= 255,
        s.has_link_stats(bin_size, id, link_st),
        s.has_pipe_stats(bin_size, id, p, pipe_st),
    ensures
        link_st.kx_veh_km == s.links@[l].fd.kx.times(whole(1000)),
        link_st.capacity_veh_h == s.links@[l].fd.c.times(whole(3600)),
        pipe_st.pipe == p,
        pipe_st.lanes == s.links@[l].pipes@[p].lanes,
        pipe_st.kx_veh_km == s.links@[l].fd.kx.times(
            Double::from_u64(s.links@[l].pipes@[p].lanes as u64),
        ).times(whole(1000)),
        pipe_st.capacity_veh_h == s.links@[l].pipes@[p].capacity.times(whole(3600)),
{
    crate::constants::law_whole_constants();
    lemma_last_link(s, id, l, s.links@.len());
}

proof fn lemma_last_link(s: Scenario, id: LinkID, l: int, n: nat)
    requires
        0 <= l < n <= s.links@.len(),
        s.links@[l].id == id,
        forall|k: int| l < k < s.links@.len() ==> (#[trigger] s.links@[k]).id != id,
    ensures
        s.find_last_link(id, n) == Some(l),
    decreases n,
{
    if l < n - 1 {
        assert(s.links@[n - 1].id != id);
        lemma_last_link(s, id, l, (n - 1) as nat);
    }
}

/// Bins start a bin length apart, from the start of the run on.
pub proof fn law_bins_start_a_bin_apart(start: Double, bin_size: Double, n: nat, i: int)
    requires
        0 <= i < n,
        n <= usize::MAX,
        n < TWO_53,
    ensures
        crate::analysis::time_axis(start, bin_size, n).len() == n,
        crate::analysis::time_axis(start, bin_size, n)[i] == start.plus(
            whole(i as nat).times(bin_size),
        ),
{
    crate::double::law_zero_and_one_are_whole();
    crate::double::law_whole_numbers_ascend(0, 1);
    crate::double::law_indices_are_whole(i as usize, whole(0));
}

/// An exit counts in the bin that its time falls into, on the link, and on the pipe if one
/// is asked for; the exits of a bin are a whole number.
pub proof fn law_exits_count_in_their_bin(cell: Cell, v: VehicleView, i: int)
    requires
        0 <= i < v.path.len(),
        i < v.pipes_taken.len(),
    ensures
        cell.counts(v, i) <==> i + 1 < v.node_times.len() && {
            let a = v.node_times[i].minus(cell.start);
            let b = v.node_times[i + 1].minus(cell.start);
            &&& !b.le(a)
            &&& v.path[i] == cell.link
            &&& cell.pipe is Some ==> v.pipes_taken[i] == cell.pipe->0
            &&& bin_of(b, cell.bin_size) == cell.bin
        },
{
}

} // verus!
