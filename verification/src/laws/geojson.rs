//! Laws of geographic summaries.
use crate::geojson;
use crate::geojson::{Geo, GeoCounts, GeometryTypeCounts, Rectangle};
use crate::json;
use crate::text;
use vstd::prelude::*;

verus! {

/// Whether a value is a position: at least two numbers, of which the first two have known doubles.
pub open spec fn is_position(value: json::Json) -> bool {
    &&& value is Array
    &&& value->Array_0.len() >= 2
    &&& geojson::all_numbers(value->Array_0)
    &&& geojson::double_of(value->Array_0[0]) is Some
    &&& geojson::double_of(value->Array_0[1]) is Some
}

/// How far to the east a position is.
pub open spec fn x_of(position: json::Json) -> int {
    json::order_of(geojson::double_of(position->Array_0[0])->0.bits)
}

/// How far to the north a position is.
pub open spec fn y_of(position: json::Json) -> int {
    json::order_of(geojson::double_of(position->Array_0[1])->0.bits)
}

/// Whether a rectangle encloses a position.
pub open spec fn encloses(r: Rectangle, position: json::Json) -> bool {
    &&& json::order_of(r.min_x.bits) <= x_of(position) <= json::order_of(r.max_x.bits)
    &&& json::order_of(r.min_y.bits) <= y_of(position) <= json::order_of(r.max_y.bits)
}

/// Whether a rectangle touches one of some positions with each of its edges.
pub open spec fn touches(r: Rectangle, positions: Seq<json::Json>) -> bool {
    &&& exists|i: int| 0 <= i < positions.len() && x_of(#[trigger] positions[i]) == json::order_of(r.min_x.bits)
    &&& exists|i: int| 0 <= i < positions.len() && x_of(#[trigger] positions[i]) == json::order_of(r.max_x.bits)
    &&& exists|i: int| 0 <= i < positions.len() && y_of(#[trigger] positions[i]) == json::order_of(r.min_y.bits)
    &&& exists|i: int| 0 <= i < positions.len() && y_of(#[trigger] positions[i]) == json::order_of(r.max_y.bits)
}

/// The rectangle around two others encloses what either of them encloses, and nothing that lies beyond both.
pub proof fn law_rectangle_around_two_is_the_smallest(a: Rectangle, b: Rectangle, position: json::Json)
    ensures
        geojson::around(Some(a), Some(b)) is Some,
        encloses(a, position) || encloses(b, position) ==> encloses(
            geojson::around(Some(a), Some(b))->0,
            position,
        ),
        x_of(position) < json::order_of(a.min_x.bits) && x_of(position) < json::order_of(b.min_x.bits) ==> !encloses(
            geojson::around(Some(a), Some(b))->0,
            position,
        ),
        x_of(position) > json::order_of(a.max_x.bits) && x_of(position) > json::order_of(b.max_x.bits) ==> !encloses(
            geojson::around(Some(a), Some(b))->0,
            position,
        ),
        y_of(position) < json::order_of(a.min_y.bits) && y_of(position) < json::order_of(b.min_y.bits) ==> !encloses(
            geojson::around(Some(a), Some(b))->0,
            position,
        ),
        y_of(position) > json::order_of(a.max_y.bits) && y_of(position) > json::order_of(b.max_y.bits) ==> !encloses(
            geojson::around(Some(a), Some(b))->0,
            position,
        ),
        geojson::around(Some(a), None) == Some(a),
        geojson::around(None, Some(b)) == Some(b),
{
}

proof fn lemma_touches_more(r: Rectangle, positions: Seq<json::Json>, more: json::Json)
    requires
        touches(r, positions),
    ensures
        touches(r, positions.push(more)),
{
    let all = positions.push(more);
    let a = choose|i: int| 0 <= i < positions.len() && x_of(#[trigger] positions[i]) == json::order_of(r.min_x.bits);
    assert(all[a] == positions[a]);
    let b = choose|i: int| 0 <= i < positions.len() && x_of(#[trigger] positions[i]) == json::order_of(r.max_x.bits);
    assert(all[b] == positions[b]);
    let c = choose|i: int| 0 <= i < positions.len() && y_of(#[trigger] positions[i]) == json::order_of(r.min_y.bits);
    assert(all[c] == positions[c]);
    let d = choose|i: int| 0 <= i < positions.len() && y_of(#[trigger] positions[i]) == json::order_of(r.max_y.bits);
    assert(all[d] == positions[d]);
}

/// Positions are counted one for one, and the rectangle that is found encloses all of them and no more than that.
#[verifier::spinoff_prover]
#[verifier::rlimit(60)]
pub proof fn law_positions_are_counted_and_enclosed(items: Seq<json::Json>)
    requires
        items.len() < usize::MAX,
        forall|i: int| 0 <= i < items.len() ==> is_position(#[trigger] items[i]),
    ensures
        ({
            let (scan, valid) = geojson::positions_scanned(geojson::no_scan(), items);
            &&& valid
            &&& scan.positions == items.len()
            &&& scan.malformed == 0
            &&& scan.empty == 0
            &&& scan.bounds is Some <==> items.len() > 0
            &&& items.len() > 0 ==> touches(scan.bounds->0, items) && forall|i: int|
                0 <= i < items.len() ==> encloses(scan.bounds->0, #[trigger] items[i])
        }),
    decreases items.len(),
{
    if items.len() > 0 {
        let init = items.drop_last();
        let last = items.last();
        assert(is_position(items[items.len() - 1]));
        assert forall|i: int| 0 <= i < init.len() implies is_position(#[trigger] init[i]) by {
            assert(is_position(items[i]));
        }
        law_positions_are_counted_and_enclosed(init);
        let before = geojson::positions_scanned(geojson::no_scan(), init).0;
        let x = geojson::double_of(last->Array_0[0])->0;
        let y = geojson::double_of(last->Array_0[1])->0;
        let own = Rectangle { min_x: x, min_y: y, max_x: x, max_y: y };
        let scan = geojson::positions_scanned(geojson::no_scan(), items).0;
        assert(scan.bounds == geojson::around(before.bounds, Some(own)));
        assert(items =~= init.push(last));
        let n = items.len() - 1;
        if init.len() > 0 {
            lemma_touches_more(before.bounds->0, init, last);
            assert(x_of(items[n]) == json::order_of(x.bits) && y_of(items[n]) == json::order_of(y.bits));
            assert(touches(scan.bounds->0, items));
            assert forall|i: int| 0 <= i < items.len() implies encloses(scan.bounds->0, #[trigger] items[i]) by {
                if i < n {
                    assert(encloses(before.bounds->0, init[i]));
                }
            }
        } else {
            assert(x_of(items[0]) == json::order_of(x.bits) && y_of(items[0]) == json::order_of(y.bits));
        }
    }
}

/// A single value in place of a position makes a list of positions invalid.
pub proof fn law_one_bad_position_is_enough(items: Seq<json::Json>, k: int)
    requires
        0 <= k < items.len(),
        !is_position(items[k]),
    ensures
        !geojson::positions_scanned(geojson::no_scan(), items).1,
    decreases items.len(),
{
    if k < items.len() - 1 {
        law_one_bad_position_is_enough(items.drop_last(), k);
    }
}

/// A line needs as many positions as its type asks for, and a ring ends where it starts.
pub proof fn law_short_lines_and_open_rings_are_invalid(items: Seq<json::Json>, minimum: nat)
    ensures
        items.len() < minimum ==> !geojson::line_scanned(geojson::no_scan(), json::Json::Array(items), minimum, false).1
            && !geojson::line_scanned(geojson::no_scan(), json::Json::Array(items), minimum, true).1,
        items.len() > 0 && !json::same_value(items[0], items.last()) ==> !geojson::line_scanned(
            geojson::no_scan(),
            json::Json::Array(items),
            minimum,
            true,
        ).1,
        items.len() >= minimum && (forall|i: int| 0 <= i < items.len() ==> is_position(#[trigger] items[i]))
            && items.len() < usize::MAX ==> geojson::line_scanned(
            geojson::no_scan(),
            json::Json::Array(items),
            minimum,
            false,
        ).1,
        geojson::coordinates_scanned("Polygon"@, json::Json::Array(seq![json::Json::Array(items)])).1 ==> items.len() >= 4
            && json::same_value(items[0], items.last()),
        geojson::coordinates_scanned("LineString"@, json::Json::Array(items)).1 ==> items.len() >= 2,
{
    if items.len() >= minimum && (forall|i: int| 0 <= i < items.len() ==> is_position(#[trigger] items[i])) && items.len()
        < usize::MAX {
        law_positions_are_counted_and_enclosed(items);
    }
    lemma_type_names();
    let one = seq![json::Json::Array(items)];
    assert(one.drop_last() =~= Seq::empty());
    reveal_with_fuel(geojson::lines_scanned, 2);
}

#[verifier::spinoff_prover]
#[verifier::rlimit(60)]
proof fn lemma_type_names()
    ensures
        "Point"@.len() == 5,
        "MultiPoint"@.len() == 10,
        "LineString"@.len() == 10,
        "MultiPoint"@ != "LineString"@,
        "MultiLineString"@.len() == 15,
        "Polygon"@.len() == 7,
        "MultiPolygon"@.len() == 12,
        "GeometryCollection"@.len() == 18,
        "Unknown"@.len() == 7,
        "Unknown"@ != "Polygon"@,
        "Feature"@.len() == 7,
        "Feature"@ != "Polygon"@,
        "Feature"@ != "Unknown"@,
        "FeatureCollection"@.len() == 17,
{
    reveal_strlit("Point");
    reveal_strlit("MultiPoint");
    reveal_strlit("LineString");
    reveal_strlit("MultiLineString");
    reveal_strlit("Polygon");
    reveal_strlit("MultiPolygon");
    reveal_strlit("GeometryCollection");
    reveal_strlit("Unknown");
    reveal_strlit("Feature");
    reveal_strlit("FeatureCollection");
    assert("MultiPoint"@[0] != "LineString"@[0]);
    assert("Unknown"@[0] != "Polygon"@[0]);
    assert("Feature"@[0] != "Polygon"@[0]);
    assert("Feature"@[0] != "Unknown"@[0]);
}

/// How many geometries are counted by type.
pub open spec fn counted(c: GeometryTypeCounts) -> int {
    c.point + c.multi_point + c.line_string + c.multi_line_string + c.polygon + c.multi_polygon + c.geometry_collection
        + c.unknown
}

/// A geometry is counted once, under its own type, or as unknown where the type is.
pub proof fn law_geometry_is_counted_once(c: GeometryTypeCounts, name: Seq<char>)
    requires
        counted(c) < usize::MAX,
    ensures
        counted(c.recorded(name)) == counted(c) + 1,
        name == "Point"@ ==> c.recorded(name).point == c.point + 1,
        name == "MultiPoint"@ ==> c.recorded(name).multi_point == c.multi_point + 1,
        name == "LineString"@ ==> c.recorded(name).line_string == c.line_string + 1,
        name == "MultiLineString"@ ==> c.recorded(name).multi_line_string == c.multi_line_string + 1,
        name == "Polygon"@ ==> c.recorded(name).polygon == c.polygon + 1,
        name == "MultiPolygon"@ ==> c.recorded(name).multi_polygon == c.multi_polygon + 1,
        name == "GeometryCollection"@ ==> c.recorded(name).geometry_collection == c.geometry_collection + 1,
        !geojson::is_geometry_type(name) ==> c.recorded(name).unknown == c.unknown + 1,
{
    lemma_type_names();
}

/// The positions of a valid geometry count, and those of an invalid one do not; it is invalid then. A geometry with
/// coordinates has no geometries of its own.
pub proof fn law_only_valid_geometries_count(
    g: Geo,
    kind: Seq<char>,
    coordinates: json::Json,
    geometries: Option<json::Json>,
)
    requires
        g.counts.invalid_geometry_count < usize::MAX,
        g.counts.position_count + geojson::coordinates_scanned(kind, coordinates).0.positions <= usize::MAX,
    ensures
        ({
            let (scan, valid) = geojson::coordinates_scanned(kind, coordinates);
            let after = geojson::shape_added(g, kind, Some(coordinates), geometries);
            &&& valid ==> after.counts.position_count == g.counts.position_count + scan.positions
            &&& !valid ==> after.counts.position_count == g.counts.position_count && after.bounds == g.bounds
            &&& valid && geometries is None ==> after.counts.invalid_geometry_count == g.counts.invalid_geometry_count
            &&& !valid || geometries is Some ==> after.counts.invalid_geometry_count == g.counts.invalid_geometry_count
                + 1
            &&& after.counts.geometry_count == g.counts.geometry_count
            &&& after.keys == g.keys
        }),
        geojson::shape_added(g, kind, None, geometries).counts.invalid_geometry_count == g.counts.invalid_geometry_count
            + 1,
        geojson::shape_added(g, kind, None, geometries).counts.position_count == g.counts.position_count,
{
}

/// A missing geometry is counted as such, and one that is no object is invalid; neither counts as a geometry.
pub proof fn law_missing_geometries_are_counted_apart(g: Geo, value: json::Json, root: bool)
    requires
        g.counts.null_geometry_count < usize::MAX,
        g.counts.invalid_geometry_count < usize::MAX,
    ensures
        value is Null ==> geojson::geometry_added(g, value, root).counts.null_geometry_count
            == g.counts.null_geometry_count + 1,
        value is Null ==> geojson::geometry_added(g, value, root).counts.invalid_geometry_count
            == g.counts.invalid_geometry_count,
        !(value is Null) && !(value is Object) ==> geojson::geometry_added(g, value, root).counts.invalid_geometry_count
            == g.counts.invalid_geometry_count + 1,
        !(value is Object) ==> geojson::geometry_added(g, value, root).counts.geometry_count == g.counts.geometry_count,
{
}

proof fn lemma_key_inserted(keys: Seq<Seq<char>>, key: Seq<char>)
    ensures
        forall|k: Seq<char>| #[trigger] geojson::key_inserted(keys, key).contains(k) <==> keys.contains(k) || k == key,
        geojson::key_inserted(keys, key).len() == keys.len() + 1,
    decreases keys.len(),
{
    let all = geojson::key_inserted(keys, key);
    if keys.len() == 0 || text::text_before(keys.last(), key) {
        assert forall|k: Seq<char>| #[trigger] all.contains(k) <==> keys.contains(k) || k == key by {
            if all.contains(k) {
                let i = choose|i: int| 0 <= i < all.len() && all[i] == k;
                if i < keys.len() {
                    assert(keys[i] == k);
                }
            }
            if keys.contains(k) {
                let i = choose|i: int| 0 <= i < keys.len() && keys[i] == k;
                assert(all[i] == k);
            }
            assert(all[all.len() - 1] == key);
        }
    } else {
        let init = keys.drop_last();
        let rest = geojson::key_inserted(init, key);
        lemma_key_inserted(init, key);
        assert forall|k: Seq<char>| #[trigger] all.contains(k) <==> keys.contains(k) || k == key by {
            if all.contains(k) {
                let i = choose|i: int| 0 <= i < all.len() && all[i] == k;
                if i < rest.len() {
                    assert(rest[i] == k);
                    assert(rest.contains(k));
                    if init.contains(k) {
                        let j = choose|j: int| 0 <= j < init.len() && init[j] == k;
                        assert(keys[j] == k);
                    }
                } else {
                    assert(keys[keys.len() - 1] == k);
                }
            }
            if keys.contains(k) || k == key {
                if k == keys.last() {
                    assert(all[all.len() - 1] == k);
                } else {
                    if keys.contains(k) {
                        let j = choose|j: int| 0 <= j < keys.len() && keys[j] == k;
                        assert(init[j] == k);
                    }
                    assert(rest.contains(k));
                    let i = choose|i: int| 0 <= i < rest.len() && rest[i] == k;
                    assert(all[i] == k);
                }
            }
        }
    }
}

/// Every property is counted, and its name is listed, unless the summary says that names are left out. No other name
/// is listed.
pub proof fn law_every_property_is_counted_and_named(g: Geo, members: Seq<(Seq<char>, json::Json)>)
    requires
        g.counts.property_count + members.len() <= usize::MAX,
    ensures
        ({
            let after = geojson::properties_added(g, members);
            &&& after.counts.property_count == g.counts.property_count + members.len()
            &&& after.counts.property_keys_truncated || forall|i: int|
                0 <= i < members.len() ==> after.keys.contains((#[trigger] members[i]).0)
            &&& g.counts.property_keys_truncated ==> after.counts.property_keys_truncated
            &&& forall|k: Seq<char>| g.keys.contains(k) ==> #[trigger] after.keys.contains(k)
            &&& forall|k: Seq<char>| #[trigger]
                after.keys.contains(k) ==> g.keys.contains(k) || exists|i: int|
                    0 <= i < members.len() && (#[trigger] members[i]).0 == k
        }),
    decreases members.len(),
{
    if members.len() > 0 {
        let init = members.drop_last();
        let name = members.last().0;
        law_every_property_is_counted_and_named(g, init);
        let before = geojson::properties_added(g, init);
        let after = geojson::properties_added(g, members);
        lemma_key_inserted(before.keys, name);
        assert(after.counts.property_keys_truncated || after.keys.contains(name));
        if !after.counts.property_keys_truncated {
            assert forall|i: int| 0 <= i < members.len() implies after.keys.contains((#[trigger] members[i]).0) by {
                if i < init.len() {
                    assert(before.keys.contains(init[i].0));
                }
            }
        }
        assert forall|k: Seq<char>| #[trigger] after.keys.contains(k) implies g.keys.contains(k) || exists|i: int|
            0 <= i < members.len() && (#[trigger] members[i]).0 == k by {
            if before.keys.contains(k) {
                if !g.keys.contains(k) {
                    let i = choose|i: int| 0 <= i < init.len() && (#[trigger] init[i]).0 == k;
                    assert(members[i].0 == k);
                }
            } else {
                assert(members[members.len() - 1].0 == k);
            }
        }
    }
}

/// A category is listed as left out if and only if something of it was.
pub proof fn law_categories_are_listed_where_something_is_left_out(c: GeoCounts)
    ensures
        geojson::discarded_categories(c).len() == flag(c.discarded_coordinate_arrays) + flag(
            c.discarded_feature_structure,
        ) + flag(c.discarded_geometry_structure) + flag(c.discarded_feature_properties) + flag(c.discarded_feature_ids)
            + flag(c.discarded_bounding_boxes) + flag(c.discarded_foreign_members) + flag(c.discarded_unknown_type_values)
            + flag(c.discarded_non_object_root),
        c.discarded_coordinate_arrays ==> geojson::discarded_categories(c)[0] == "coordinate_arrays"@,
        c.discarded_non_object_root ==> geojson::discarded_categories(c).last() == "non_object_root"@,
{
}

/// One for what is so, and none for what is not.
pub open spec fn flag(b: bool) -> int {
    if b {
        1
    } else {
        0
    }
}

/// As many features are counted as a collection has, and one for a document that is a feature.
pub proof fn law_features_are_counted(object: Seq<(Seq<char>, json::Json)>, items: Seq<json::Json>)
    requires
        items.len() <= usize::MAX,
    ensures
        geojson::document_type(object) == "FeatureCollection"@ && json::member(object, "features"@) == Some(
            json::Json::Array(items),
        ) ==> geojson::gathered(json::Json::Object(object)).counts.feature_count == items.len(),
        geojson::document_type(object) == "Feature"@ ==> geojson::gathered(
            json::Json::Object(object),
        ).counts.feature_count == 1,
{
    lemma_type_names();
    let g = geojson::empty_geo();
    let seen = g.with_members(object, seq!["type"@, "name"@, "features"@, "bbox"@]);
    let noted = seen.set(GeoCounts { discarded_feature_structure: true, ..seen.counts });
    let start = noted.set(GeoCounts { feature_count: items.len() as usize, ..noted.counts });
    lemma_features_keep_count(start, items);
    lemma_feature_keeps_count(
        g.set(GeoCounts { feature_count: 1, ..g.counts }),
        json::Json::Object(object),
        true,
    );
}

proof fn lemma_features_keep_count(g: Geo, items: Seq<json::Json>)
    ensures
        geojson::features_added(g, items).counts.feature_count == g.counts.feature_count,
    decreases items.len(),
{
    if items.len() > 0 {
        lemma_features_keep_count(g, items.drop_last());
        lemma_feature_keeps_count(geojson::features_added(g, items.drop_last()), items.last(), false);
    }
}

#[verifier::spinoff_prover]
#[verifier::rlimit(60)]
proof fn lemma_feature_keeps_count(g: Geo, value: json::Json, root: bool)
    ensures
        geojson::feature_added(g, value, root).counts.feature_count == g.counts.feature_count,
{
    match value {
        json::Json::Object(object) => {
            if let Some(json::Json::Object(members)) = json::member(object, "properties"@) {
                let structured = geojson::feature_structure_noted(
                    g.with_members(object, geojson::feature_members(root)),
                    root,
                );
                let typed = geojson::feature_type_noted(structured, json::member(object, "type"@));
                lemma_properties_keep_count(
                    typed.set(
                        GeoCounts {
                            discarded_feature_properties: typed.counts.discarded_feature_properties || members.len() > 0,
                            ..typed.counts
                        },
                    ),
                    members,
                );
            }
            let noted = geojson::feature_noted(g, object, root);
            if let Some(geometry) = json::member(object, "geometry"@) {
                lemma_geometry_keeps_count(
                    noted.with_geometry_structure(json::has_content(geometry)),
                    geometry,
                    false,
                );
            }
        },
        _ => {},
    }
}

proof fn lemma_properties_keep_count(g: Geo, members: Seq<(Seq<char>, json::Json)>)
    ensures
        geojson::properties_added(g, members).counts.feature_count == g.counts.feature_count,
    decreases members.len(),
{
    if members.len() > 0 {
        lemma_properties_keep_count(g, members.drop_last());
    }
}

proof fn lemma_geometry_keeps_count(g: Geo, value: json::Json, root: bool)
    ensures
        geojson::geometry_added(g, value, root).counts.feature_count == g.counts.feature_count,
    decreases value, 1int,
{
    match value {
        json::Json::Object(object) => {
            if let Some(kind) = json::text_of(json::member(object, "type"@)) {
                let seen = g.with_members(object, geojson::geometry_members(root));
                json::lemma_member_is_smaller(object, "geometries"@);
                if let Some(json::Json::Array(items)) = json::member(object, "geometries"@) {
                    let noted = seen.with_type(kind).with_coordinates(
                        json::member(object, "coordinates"@),
                    ).with_geometry_structure(true);
                    lemma_geometries_keep_count(noted, items);
                }
            }
        },
        _ => {},
    }
}

proof fn lemma_geometries_keep_count(g: Geo, items: Seq<json::Json>)
    ensures
        geojson::geometries_added(g, items).counts.feature_count == g.counts.feature_count,
    decreases items, 0int,
{
    if items.len() > 0 {
        lemma_geometries_keep_count(g, items.drop_last());
        lemma_geometry_keeps_count(geojson::geometries_added(g, items.drop_last()), items[items.len() - 1], false);
    }
}

} // verus!
