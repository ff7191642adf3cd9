//! Geographic data in the notation of JSON: what a bounded summary of a document says.
use crate::config::ExtractionConfig;
use crate::error;
use crate::error::{security_error, XbergError};
use crate::json;
use crate::json::{
    as_text, equal_values, find_member, is_less, json_text, read_json, list_of_texts, number_of_count, push_member, value_has_content,
    Double,
    JsonNumber, JsonValue,
};
use crate::security;
use crate::security::{Ledger, SecurityBudget, SecurityError, SecurityLimits};
use crate::text;
use crate::text::{chars_of, comes_before, contains_string, same_str, str_byte_len, truncate_utf8};
use vstd::prelude::*;

verus! {

/// The most property names that a summary lists.
pub const MAX_GEOJSON_PROPERTY_KEYS: usize = 256;

/// The most bytes that the listed property names take in the notation of JSON.
pub const MAX_GEOJSON_PROPERTY_KEY_BYTES: usize = 4096;

/// The most bytes of a name that a summary keeps.
pub const MAX_GEOJSON_NAME_BYTES: usize = 256;

/// One more, up to the largest count.
pub open spec fn inc(n: usize) -> usize {
    security::saturated(n + 1)
}

fn one_more(n: usize) -> (r: usize)
    ensures
        r == inc(n),
{
    n.saturating_add(1)
}

fn sum_of(a: usize, b: usize) -> (r: usize)
    ensures
        r == security::saturated(a + b),
{
    a.saturating_add(b)
}

/// How many geometries of each type there are.
#[derive(Clone, Copy, Debug)]
pub struct GeometryTypeCounts {
    /// Of type `Point`.
    pub point: usize,
    /// Of type `MultiPoint`.
    pub multi_point: usize,
    /// Of type `LineString`.
    pub line_string: usize,
    /// Of type `MultiLineString`.
    pub multi_line_string: usize,
    /// Of type `Polygon`.
    pub polygon: usize,
    /// Of type `MultiPolygon`.
    pub multi_polygon: usize,
    /// Of type `GeometryCollection`.
    pub geometry_collection: usize,
    /// Of any other type.
    pub unknown: usize,
}

/// Whether a name is that of a type of geometry.
pub open spec fn is_geometry_type(name: Seq<char>) -> bool {
    has_coordinates(name) || name == "GeometryCollection"@
}

/// Whether a name is that of a type of geometry with coordinates.
pub open spec fn has_coordinates(name: Seq<char>) -> bool {
    name == "Point"@ || name == "MultiPoint"@ || name == "LineString"@ || name == "MultiLineString"@ || name
        == "Polygon"@ || name == "MultiPolygon"@
}

impl GeometryTypeCounts {
    /// With one more geometry of a type.
    pub open spec fn recorded(self, name: Seq<char>) -> GeometryTypeCounts {
        if name == "Point"@ {
            GeometryTypeCounts { point: inc(self.point), ..self }
        } else if name == "MultiPoint"@ {
            GeometryTypeCounts { multi_point: inc(self.multi_point), ..self }
        } else if name == "LineString"@ {
            GeometryTypeCounts { line_string: inc(self.line_string), ..self }
        } else if name == "MultiLineString"@ {
            GeometryTypeCounts { multi_line_string: inc(self.multi_line_string), ..self }
        } else if name == "Polygon"@ {
            GeometryTypeCounts { polygon: inc(self.polygon), ..self }
        } else if name == "MultiPolygon"@ {
            GeometryTypeCounts { multi_polygon: inc(self.multi_polygon), ..self }
        } else if name == "GeometryCollection"@ {
            GeometryTypeCounts { geometry_collection: inc(self.geometry_collection), ..self }
        } else {
            GeometryTypeCounts { unknown: inc(self.unknown), ..self }
        }
    }

    /// Counts a geometry, and says whether its type is unknown.
    pub fn record(&mut self, geometry_type: &str) -> (unknown: bool)
        ensures
            *final(self) == old(self).recorded(geometry_type@),
            unknown == !is_geometry_type(geometry_type@),
    {
        if same_str(geometry_type, "Point") {
            self.point = one_more(self.point);
            false
        } else if same_str(geometry_type, "MultiPoint") {
            self.multi_point = one_more(self.multi_point);
            false
        } else if same_str(geometry_type, "LineString") {
            self.line_string = one_more(self.line_string);
            false
        } else if same_str(geometry_type, "MultiLineString") {
            self.multi_line_string = one_more(self.multi_line_string);
            false
        } else if same_str(geometry_type, "Polygon") {
            self.polygon = one_more(self.polygon);
            false
        } else if same_str(geometry_type, "MultiPolygon") {
            self.multi_polygon = one_more(self.multi_polygon);
            false
        } else if same_str(geometry_type, "GeometryCollection") {
            self.geometry_collection = one_more(self.geometry_collection);
            false
        } else {
            self.unknown = one_more(self.unknown);
            true
        }
    }
}

/// What a summary counts and which parts of the document it leaves out.
#[derive(Clone, Copy, Debug)]
pub struct GeoCounts {
    /// Number of features.
    pub feature_count: usize,
    /// Number of geometries that name a type.
    pub geometry_count: usize,
    /// Number of missing geometries.
    pub null_geometry_count: usize,
    /// Number of invalid geometries.
    pub invalid_geometry_count: usize,
    /// Number of invalid features.
    pub invalid_feature_count: usize,
    /// Number of positions in valid geometries.
    pub position_count: usize,
    /// Number of malformed positions, lines and rings.
    pub malformed_position_array_count: usize,
    /// Number of empty lists of coordinates.
    pub empty_coordinate_array_count: usize,
    /// Number of properties, repeated ones included.
    pub property_count: usize,
    /// Number of bytes that the listed property names take in the notation of JSON.
    pub property_key_bytes: usize,
    /// Whether some property names are not listed.
    pub property_keys_truncated: bool,
    /// Whether coordinates are left out.
    pub discarded_coordinate_arrays: bool,
    /// Whether the structure of features is left out.
    pub discarded_feature_structure: bool,
    /// Whether the structure of geometries is left out.
    pub discarded_geometry_structure: bool,
    /// Whether values of properties are left out.
    pub discarded_feature_properties: bool,
    /// Whether identifiers of features are left out.
    pub discarded_feature_ids: bool,
    /// Whether declared bounding boxes are left out.
    pub discarded_bounding_boxes: bool,
    /// Whether members that the format does not know are left out.
    pub discarded_foreign_members: bool,
    /// Whether names of unknown types are left out.
    pub discarded_unknown_type_values: bool,
    /// Whether a document that is no object is left out.
    pub discarded_non_object_root: bool,
    /// How many geometries of each type there are.
    pub geometry_types: GeometryTypeCounts,
}

/// Nothing counted and nothing left out.
pub open spec fn no_counts() -> GeoCounts {
    GeoCounts {
        feature_count: 0,
        geometry_count: 0,
        null_geometry_count: 0,
        invalid_geometry_count: 0,
        invalid_feature_count: 0,
        position_count: 0,
        malformed_position_array_count: 0,
        empty_coordinate_array_count: 0,
        property_count: 0,
        property_key_bytes: 0,
        property_keys_truncated: false,
        discarded_coordinate_arrays: false,
        discarded_feature_structure: false,
        discarded_geometry_structure: false,
        discarded_feature_properties: false,
        discarded_feature_ids: false,
        discarded_bounding_boxes: false,
        discarded_foreign_members: false,
        discarded_unknown_type_values: false,
        discarded_non_object_root: false,
        geometry_types: GeometryTypeCounts {
            point: 0,
            multi_point: 0,
            line_string: 0,
            multi_line_string: 0,
            polygon: 0,
            multi_polygon: 0,
            geometry_collection: 0,
            unknown: 0,
        },
    }
}

fn zero_counts() -> (r: GeoCounts)
    ensures
        r == no_counts(),
{
    GeoCounts {
        feature_count: 0,
        geometry_count: 0,
        null_geometry_count: 0,
        invalid_geometry_count: 0,
        invalid_feature_count: 0,
        position_count: 0,
        malformed_position_array_count: 0,
        empty_coordinate_array_count: 0,
        property_count: 0,
        property_key_bytes: 0,
        property_keys_truncated: false,
        discarded_coordinate_arrays: false,
        discarded_feature_structure: false,
        discarded_geometry_structure: false,
        discarded_feature_properties: false,
        discarded_feature_ids: false,
        discarded_bounding_boxes: false,
        discarded_foreign_members: false,
        discarded_unknown_type_values: false,
        discarded_non_object_root: false,
        geometry_types: GeometryTypeCounts {
            point: 0,
            multi_point: 0,
            line_string: 0,
            multi_line_string: 0,
            polygon: 0,
            multi_polygon: 0,
            geometry_collection: 0,
            unknown: 0,
        },
    }
}

/// The smaller of two doubles.
pub open spec fn smaller(a: json::DoubleData, b: json::DoubleData) -> json::DoubleData {
    if json::order_of(b.bits) < json::order_of(a.bits) {
        b
    } else {
        a
    }
}

/// The larger of two doubles.
pub open spec fn larger(a: json::DoubleData, b: json::DoubleData) -> json::DoubleData {
    if json::order_of(a.bits) < json::order_of(b.bits) {
        b
    } else {
        a
    }
}

/// A rectangle.
#[derive(Clone, Debug)]
pub struct Bounds {
    /// Its left edge.
    pub min_x: Double,
    /// Its lower edge.
    pub min_y: Double,
    /// Its right edge.
    pub max_x: Double,
    /// Its upper edge.
    pub max_y: Double,
}

/// A rectangle, with the digits of its edges as sequences.
#[verifier::ext_equal]
pub struct Rectangle {
    /// Its left edge.
    pub min_x: json::DoubleData,
    /// Its lower edge.
    pub min_y: json::DoubleData,
    /// Its right edge.
    pub max_x: json::DoubleData,
    /// Its upper edge.
    pub max_y: json::DoubleData,
}

impl View for Bounds {
    type V = Rectangle;

    open spec fn view(&self) -> Rectangle {
        Rectangle { min_x: self.min_x@, min_y: self.min_y@, max_x: self.max_x@, max_y: self.max_y@ }
    }
}

/// A rectangle, if there is one.
pub open spec fn rectangle(bounds: Option<Bounds>) -> Option<Rectangle> {
    match bounds {
        Some(b) => Some(b@),
        None => None,
    }
}

/// The smallest rectangle around two others.
pub open spec fn around(a: Option<Rectangle>, b: Option<Rectangle>) -> Option<Rectangle> {
    match (a, b) {
        (Some(x), Some(y)) => Some(
            Rectangle {
                min_x: smaller(x.min_x, y.min_x),
                min_y: smaller(x.min_y, y.min_y),
                max_x: larger(x.max_x, y.max_x),
                max_y: larger(x.max_y, y.max_y),
            },
        ),
        (Some(x), None) => Some(x),
        (None, other) => other,
    }
}

fn copy_double(d: &Double) -> (r: Double)
    ensures
        r@ == d@,
{
    Double { bits: d.bits, text: d.text.clone() }
}

fn min_double(a: Double, b: Double) -> (r: Double)
    ensures
        r@ == smaller(a@, b@),
{
    if is_less(b.bits, a.bits) {
        b
    } else {
        a
    }
}

fn max_double(a: Double, b: Double) -> (r: Double)
    ensures
        r@ == larger(a@, b@),
{
    if is_less(a.bits, b.bits) {
        b
    } else {
        a
    }
}

fn join_bounds(a: Option<Bounds>, b: Option<Bounds>) -> (r: Option<Bounds>)
    ensures
        rectangle(r) == around(rectangle(a), rectangle(b)),
{
    match (a, b) {
        (Some(x), Some(y)) => Some(
            Bounds {
                min_x: min_double(x.min_x, y.min_x),
                min_y: min_double(x.min_y, y.min_y),
                max_x: max_double(x.max_x, y.max_x),
                max_y: max_double(x.max_y, y.max_y),
            },
        ),
        (Some(x), None) => Some(x),
        (None, other) => other,
    }
}

/// What a scan of coordinates has found.
#[verifier::ext_equal]
pub struct Scan {
    /// Number of positions.
    pub positions: usize,
    /// Number of malformed positions, lines and rings.
    pub malformed: usize,
    /// Number of empty lists.
    pub empty: usize,
    /// The rectangle around the positions.
    pub bounds: Option<Rectangle>,
}

/// Nothing found.
pub open spec fn no_scan() -> Scan {
    Scan { positions: 0, malformed: 0, empty: 0, bounds: None }
}

impl Scan {
    /// With one more position.
    pub open spec fn with_position(self, x: json::DoubleData, y: json::DoubleData) -> Scan {
        Scan {
            positions: inc(self.positions),
            bounds: around(self.bounds, Some(Rectangle { min_x: x, min_y: y, max_x: x, max_y: y })),
            ..self
        }
    }

    /// With one more malformed list.
    pub open spec fn with_malformed(self) -> Scan {
        Scan { malformed: inc(self.malformed), ..self }
    }

    /// With one more empty list.
    pub open spec fn with_empty(self) -> Scan {
        Scan { empty: inc(self.empty), ..self }
    }
}

/// Whether every value is a number.
pub open spec fn all_numbers(items: Seq<json::Json>) -> bool {
    forall|i: int| 0 <= i < items.len() ==> (#[trigger] items[i]) is Number
}

/// The double of a number.
pub open spec fn double_of(value: json::Json) -> Option<json::DoubleData> {
    match value {
        json::Json::Number(n) => n.double,
        _ => None,
    }
}

/// A scan of one position, and whether it is valid: a list of at least two numbers.
pub open spec fn position_scanned(scan: Scan, value: json::Json) -> (Scan, bool) {
    match value {
        json::Json::Array(items) => if items.len() == 0 {
            (scan.with_empty(), false)
        } else if items.len() < 2 || !all_numbers(items) {
            (scan.with_malformed(), false)
        } else {
            match (double_of(items[0]), double_of(items[1])) {
                (Some(x), Some(y)) => (scan.with_position(x, y), true),
                _ => (scan.with_malformed(), false),
            }
        },
        _ => (scan.with_malformed(), false),
    }
}

/// A scan of positions, and whether all are valid.
pub open spec fn positions_scanned(scan: Scan, items: Seq<json::Json>) -> (Scan, bool)
    decreases items.len(),
{
    if items.len() == 0 {
        (scan, true)
    } else {
        let (before, valid) = positions_scanned(scan, items.drop_last());
        let (after, last) = position_scanned(before, items.last());
        (after, last && valid)
    }
}

/// A scan of a line, and whether it is valid: it has enough positions, all of them are valid, and it
/// ends where it starts if it is to be closed.
pub open spec fn line_scanned(scan: Scan, value: json::Json, minimum: nat, closed: bool) -> (Scan, bool) {
    match value {
        json::Json::Array(items) => if items.len() < minimum {
            if items.len() == 0 {
                (scan.with_empty(), false)
            } else {
                (scan.with_malformed(), false)
            }
        } else {
            let (after, valid) = positions_scanned(scan, items);
            if closed && items.len() > 0 && !json::same_value(items[0], items.last()) {
                (after.with_malformed(), false)
            } else {
                (after, valid)
            }
        },
        _ => (scan.with_malformed(), false),
    }
}

/// A scan of lines, and whether all are valid.
pub open spec fn lines_scanned(scan: Scan, items: Seq<json::Json>, minimum: nat, closed: bool) -> (Scan, bool)
    decreases items.len(),
{
    if items.len() == 0 {
        (scan, true)
    } else {
        let (before, valid) = lines_scanned(scan, items.drop_last(), minimum, closed);
        let (after, last) = line_scanned(before, items.last(), minimum, closed);
        (after, last && valid)
    }
}

/// A scan of a list of lines, and whether it is valid; an empty one is.
pub open spec fn line_list_scanned(scan: Scan, value: json::Json, minimum: nat, closed: bool) -> (Scan, bool) {
    match value {
        json::Json::Array(items) => if items.len() == 0 {
            (scan.with_empty(), true)
        } else {
            lines_scanned(scan, items, minimum, closed)
        },
        _ => (scan.with_malformed(), false),
    }
}

/// A scan of polygons, and whether all are valid.
pub open spec fn polygons_scanned(scan: Scan, items: Seq<json::Json>) -> (Scan, bool)
    decreases items.len(),
{
    if items.len() == 0 {
        (scan, true)
    } else {
        let (before, valid) = polygons_scanned(scan, items.drop_last());
        let (after, last) = line_list_scanned(before, items.last(), 4, true);
        (after, last && valid)
    }
}

/// A scan of the coordinates of a geometry, and whether they have the shape that its type asks for.
pub open spec fn coordinates_scanned(kind: Seq<char>, value: json::Json) -> (Scan, bool) {
    if kind == "Point"@ {
        position_scanned(no_scan(), value)
    } else if kind == "MultiPoint"@ {
        line_scanned(no_scan(), value, 0, false)
    } else if kind == "LineString"@ {
        line_scanned(no_scan(), value, 2, false)
    } else if kind == "MultiLineString"@ {
        line_list_scanned(no_scan(), value, 2, false)
    } else if kind == "Polygon"@ {
        line_list_scanned(no_scan(), value, 4, true)
    } else if kind == "MultiPolygon"@ {
        match value {
            json::Json::Array(items) => if items.len() == 0 {
                (no_scan().with_empty(), true)
            } else {
                polygons_scanned(no_scan(), items)
            },
            _ => (no_scan().with_malformed(), false),
        }
    } else {
        (no_scan(), false)
    }
}

/// What a scan of coordinates has found.
pub struct PositionScan {
    /// Number of positions.
    pub positions: usize,
    /// Number of malformed positions, lines and rings.
    pub malformed: usize,
    /// Number of empty lists.
    pub empty: usize,
    /// The rectangle around the positions.
    pub bounds: Option<Bounds>,
}

impl View for PositionScan {
    type V = Scan;

    open spec fn view(&self) -> Scan {
        Scan {
            positions: self.positions,
            malformed: self.malformed,
            empty: self.empty,
            bounds: rectangle(self.bounds),
        }
    }
}

impl PositionScan {
    /// Nothing found.
    pub fn new() -> (r: Self)
        ensures
            r@ == no_scan(),
    {
        PositionScan { positions: 0, malformed: 0, empty: 0, bounds: None }
    }

    fn add_malformed(&mut self)
        ensures
            final(self)@ == old(self)@.with_malformed(),
    {
        self.malformed = one_more(self.malformed);
    }

    fn add_empty(&mut self)
        ensures
            final(self)@ == old(self)@.with_empty(),
    {
        self.empty = one_more(self.empty);
    }

    fn record_position(&mut self, x: &Double, y: &Double)
        ensures
            final(self)@ == old(self)@.with_position(x@, y@),
    {
        self.positions = one_more(self.positions);
        let point = Bounds {
            min_x: copy_double(x),
            min_y: copy_double(y),
            max_x: copy_double(x),
            max_y: copy_double(y),
        };
        let mut earlier: Option<Bounds> = None;
        std::mem::swap(&mut earlier, &mut self.bounds);
        self.bounds = join_bounds(earlier, Some(point));
    }

    /// Scans one position.
    pub fn scan_geojson_position(&mut self, value: &JsonValue) -> (valid: bool)
        ensures
            (final(self)@, valid) == position_scanned(old(self)@, value@),
    {
        proof {
            json::lemma_view(*value);
        }
        if let JsonValue::Array(items) = value {
            if items.len() == 0 {
                self.add_empty();
                return false;
            }
            if items.len() < 2 || !are_numbers(items.as_slice()) {
                self.add_malformed();
                return false;
            }
            if let (JsonValue::Number(a), JsonValue::Number(b)) = (&items[0], &items[1]) {
                if let (Some(x), Some(y)) = (&a.double, &b.double) {
                    self.record_position(x, y);
                    return true;
                }
            }
        }
        self.add_malformed();
        false
    }

    /// Scans a line.
    pub fn scan_geojson_line(&mut self, value: &JsonValue, minimum: usize, closed: bool) -> (valid: bool)
        ensures
            (final(self)@, valid) == line_scanned(old(self)@, value@, minimum as nat, closed),
    {
        proof {
            json::lemma_view(*value);
        }
        let items = match value {
            JsonValue::Array(items) => items,
            _ => {
                self.add_malformed();
                return false;
            },
        };
        let ghost all = json::values(items@);
        if items.len() < minimum {
            if items.len() == 0 {
                self.add_empty();
            } else {
                self.add_malformed();
            }
            return false;
        }
        let mut valid = true;
        let mut i: usize = 0;
        while i < items.len()
            invariant
                i <= items.len(),
                all == json::values(items@),
                (self@, valid) == positions_scanned(old(self)@, all.take(i as int)),
            decreases items.len() - i,
        {
            proof {
                assert(all.take(i + 1).drop_last() =~= all.take(i as int));
                assert(all.take(i + 1).last() == items@[i as int]@);
            }
            let next = self.scan_geojson_position(&items[i]);
            valid = next && valid;
            i = i + 1;
        }
        proof {
            assert(all.take(all.len() as int) =~= all);
        }
        if closed && items.len() > 0 && !equal_values(&items[0], &items[items.len() - 1]) {
            self.add_malformed();
            return false;
        }
        valid
    }

    /// Scans a list of lines.
    pub fn scan_geojson_lines(&mut self, value: &JsonValue, minimum: usize, closed: bool) -> (valid: bool)
        ensures
            (final(self)@, valid) == line_list_scanned(old(self)@, value@, minimum as nat, closed),
    {
        proof {
            json::lemma_view(*value);
        }
        let items = match value {
            JsonValue::Array(items) => items,
            _ => {
                self.add_malformed();
                return false;
            },
        };
        let ghost all = json::values(items@);
        if items.len() == 0 {
            self.add_empty();
            return true;
        }
        let mut valid = true;
        let mut i: usize = 0;
        while i < items.len()
            invariant
                i <= items.len(),
                all == json::values(items@),
                (self@, valid) == lines_scanned(old(self)@, all.take(i as int), minimum as nat, closed),
            decreases items.len() - i,
        {
            proof {
                assert(all.take(i + 1).drop_last() =~= all.take(i as int));
                assert(all.take(i + 1).last() == items@[i as int]@);
            }
            let next = self.scan_geojson_line(&items[i], minimum, closed);
            valid = next && valid;
            i = i + 1;
        }
        proof {
            assert(all.take(all.len() as int) =~= all);
        }
        valid
    }

    fn scan_polygons(&mut self, items: &Vec<JsonValue>) -> (valid: bool)
        ensures
            (final(self)@, valid) == polygons_scanned(old(self)@, json::values(items@)),
    {
        let ghost all = json::values(items@);
        let mut valid = true;
        let mut i: usize = 0;
        while i < items.len()
            invariant
                i <= items.len(),
                all == json::values(items@),
                (self@, valid) == polygons_scanned(old(self)@, all.take(i as int)),
            decreases items.len() - i,
        {
            proof {
                assert(all.take(i + 1).drop_last() =~= all.take(i as int));
                assert(all.take(i + 1).last() == items@[i as int]@);
            }
            let next = self.scan_geojson_lines(&items[i], 4, true);
            valid = next && valid;
            i = i + 1;
        }
        proof {
            assert(all.take(all.len() as int) =~= all);
        }
        valid
    }
}

fn are_numbers(items: &[JsonValue]) -> (r: bool)
    ensures
        r == all_numbers(json::values(items@)),
{
    let ghost all = json::values(items@);
    let mut i: usize = 0;
    while i < items.len()
        invariant
            i <= items.len(),
            all == json::values(items@),
            forall|k: int| 0 <= k < i ==> (#[trigger] all[k]) is Number,
        decreases items.len() - i,
    {
        proof {
            assert(all[i as int] == items@[i as int]@);
        }
        match &items[i] {
            JsonValue::Number(_) => {},
            _ => {
                return false;
            },
        }
        i = i + 1;
    }
    true
}

/// Scans the coordinates of a geometry.
pub fn scan_geojson_coordinates(kind: &str, value: &JsonValue) -> (r: (PositionScan, bool))
    ensures
        (r.0@, r.1) == coordinates_scanned(kind@, value@),
{
    let mut scan = PositionScan::new();
    let valid = if same_str(kind, "Point") {
        scan.scan_geojson_position(value)
    } else if same_str(kind, "MultiPoint") {
        scan.scan_geojson_line(value, 0, false)
    } else if same_str(kind, "LineString") {
        scan.scan_geojson_line(value, 2, false)
    } else if same_str(kind, "MultiLineString") {
        scan.scan_geojson_lines(value, 2, false)
    } else if same_str(kind, "Polygon") {
        scan.scan_geojson_lines(value, 4, true)
    } else if same_str(kind, "MultiPolygon") {
        proof {
            json::lemma_view(*value);
        }
        match value {
            JsonValue::Array(items) => {
                if items.len() == 0 {
                    scan.add_empty();
                    true
                } else {
                    scan.scan_polygons(items)
                }
            },
            _ => {
                scan.add_malformed();
                false
            },
        }
    } else {
        false
    };
    (scan, valid)
}

/// What a summary has gathered.
#[verifier::ext_equal]
pub struct Geo {
    /// What it counts and leaves out.
    pub counts: GeoCounts,
    /// The rectangle around the positions.
    pub bounds: Option<Rectangle>,
    /// The listed property names, in order.
    pub keys: Seq<Seq<char>>,
}

/// The names with one more, before all that it comes before.
pub open spec fn key_inserted(keys: Seq<Seq<char>>, key: Seq<char>) -> Seq<Seq<char>>
    decreases keys.len(),
{
    if keys.len() == 0 || text::text_before(keys.last(), key) {
        keys.push(key)
    } else {
        key_inserted(keys.drop_last(), key).push(keys.last())
    }
}

/// Whether some value of an object that is not among the known ones holds anything.
pub open spec fn has_foreign(object: Seq<(Seq<char>, json::Json)>, known: Seq<Seq<char>>) -> bool {
    exists|i: int|
        0 <= i < object.len() && !known.contains((#[trigger] object[i]).0) && json::has_content(object[i].1)
}

/// Whether an optional value holds anything.
pub open spec fn some_content(value: Option<json::Json>) -> bool {
    value is Some && json::has_content(value->0)
}

impl Geo {
    /// With other counts.
    pub open spec fn set(self, counts: GeoCounts) -> Geo {
        Geo { counts, ..self }
    }

    /// With a note of the members of an object that are left out.
    pub open spec fn with_members(self, object: Seq<(Seq<char>, json::Json)>, known: Seq<Seq<char>>) -> Geo {
        self.set(
            GeoCounts {
                discarded_bounding_boxes: self.counts.discarded_bounding_boxes || some_content(
                    json::member(object, "bbox"@),
                ),
                discarded_foreign_members: self.counts.discarded_foreign_members || has_foreign(object, known),
                ..self.counts
            },
        )
    }

    /// With one more geometry of a type.
    pub open spec fn with_type(self, name: Seq<char>) -> Geo {
        self.set(
            GeoCounts {
                geometry_count: inc(self.counts.geometry_count),
                geometry_types: self.counts.geometry_types.recorded(name),
                discarded_unknown_type_values: self.counts.discarded_unknown_type_values || !is_geometry_type(name),
                ..self.counts
            },
        )
    }

    /// With one more invalid geometry.
    pub open spec fn with_invalid_geometry(self) -> Geo {
        self.set(GeoCounts { invalid_geometry_count: inc(self.counts.invalid_geometry_count), ..self.counts })
    }

    /// With one more invalid feature.
    pub open spec fn with_invalid_feature(self) -> Geo {
        self.set(GeoCounts { invalid_feature_count: inc(self.counts.invalid_feature_count), ..self.counts })
    }

    /// With a note that coordinates are left out, if there are any.
    pub open spec fn with_coordinates(self, value: Option<json::Json>) -> Geo {
        self.set(
            GeoCounts {
                discarded_coordinate_arrays: self.counts.discarded_coordinate_arrays || some_content(value),
                ..self.counts
            },
        )
    }

    /// With a note that the structure of geometries is left out, if it is.
    pub open spec fn with_geometry_structure(self, left_out: bool) -> Geo {
        self.set(
            GeoCounts {
                discarded_geometry_structure: self.counts.discarded_geometry_structure || left_out,
                ..self.counts
            },
        )
    }

    /// With what a scan of coordinates has found; the positions of an invalid geometry do not count.
    pub open spec fn merged(self, scan: Scan, valid: bool) -> Geo {
        Geo {
            counts: GeoCounts {
                malformed_position_array_count: security::saturated(
                    self.counts.malformed_position_array_count + scan.malformed,
                ),
                empty_coordinate_array_count: security::saturated(
                    self.counts.empty_coordinate_array_count + scan.empty,
                ),
                position_count: if valid {
                    security::saturated(self.counts.position_count + scan.positions)
                } else {
                    self.counts.position_count
                },
                ..self.counts
            },
            bounds: if valid {
                around(self.bounds, scan.bounds)
            } else {
                self.bounds
            },
            ..self
        }
    }

    /// With one more property. Its name is listed, unless it already is or there is no room for it.
    pub open spec fn with_property(self, key: Seq<char>) -> Geo {
        let counted = self.set(GeoCounts { property_count: inc(self.counts.property_count), ..self.counts });
        let used = self.counts.property_key_bytes;
        let next = security::saturated(used + text::byte_len(json::json_notation(key)) as int);
        if self.keys.contains(key) {
            counted
        } else if text::byte_len(key) + used > MAX_GEOJSON_PROPERTY_KEY_BYTES || self.keys.len()
            >= MAX_GEOJSON_PROPERTY_KEYS || next > MAX_GEOJSON_PROPERTY_KEY_BYTES {
            counted.set(GeoCounts { property_keys_truncated: true, ..counted.counts })
        } else {
            Geo {
                keys: key_inserted(self.keys, key),
                ..counted.set(GeoCounts { property_key_bytes: next, ..counted.counts })
            }
        }
    }
}

/// The members that a geometry is known to have.
pub open spec fn geometry_members(root: bool) -> Seq<Seq<char>> {
    if root {
        seq!["type"@, "name"@, "coordinates"@, "geometries"@, "bbox"@]
    } else {
        seq!["type"@, "coordinates"@, "geometries"@, "bbox"@]
    }
}

/// A summary with a geometry.
pub open spec fn geometry_added(g: Geo, value: json::Json, root: bool) -> Geo
    decreases value, 1int,
{
    match value {
        json::Json::Null => g.set(GeoCounts { null_geometry_count: inc(g.counts.null_geometry_count), ..g.counts }),
        json::Json::Object(object) => {
            let seen = g.with_members(object, geometry_members(root));
            match json::text_of(json::member(object, "type"@)) {
                Some(kind) => typed_geometry_added(seen.with_type(kind), object, kind),
                None => seen.with_invalid_geometry(),
            }
        },
        _ => g.with_invalid_geometry(),
    }
}

/// A summary with a geometry of a type that was counted.
pub open spec fn typed_geometry_added(g: Geo, object: Seq<(Seq<char>, json::Json)>, kind: Seq<char>) -> Geo
    decreases object, 0int,
{
    proof {
        json::lemma_member_is_smaller(object, "geometries"@);
    }
    let coordinates = json::member(object, "coordinates"@);
    let geometries = json::member(object, "geometries"@);
    if kind == "GeometryCollection"@ {
        match geometries {
            Some(list) => collection_added(g, coordinates, list),
            None => g.with_coordinates(coordinates).with_invalid_geometry(),
        }
    } else if has_coordinates(kind) {
        shape_added(g, kind, coordinates, geometries)
    } else {
        g.with_invalid_geometry()
    }
}

/// A summary with a collection of geometries: it has geometries and no coordinates.
pub open spec fn collection_added(g: Geo, coordinates: Option<json::Json>, geometries: json::Json) -> Geo
    decreases geometries, 0int,
{
    let noted = g.with_coordinates(coordinates).with_geometry_structure(true);
    match geometries {
        json::Json::Array(items) => {
            let added = geometries_added(noted, items);
            if coordinates is None {
                added
            } else {
                added.with_invalid_geometry()
            }
        },
        _ => noted.with_invalid_geometry(),
    }
}

/// A summary with a geometry of a type that has coordinates: they have the shape that its type asks
/// for, and it has no geometries of its own.
pub open spec fn shape_added(
    g: Geo,
    kind: Seq<char>,
    coordinates: Option<json::Json>,
    geometries: Option<json::Json>,
) -> Geo {
    match coordinates {
        Some(list) => {
            let (scan, valid) = coordinates_scanned(kind, list);
            let merged = g.with_coordinates(coordinates).merged(scan, valid).with_geometry_structure(
                geometries is Some,
            );
            if valid && geometries is None {
                merged
            } else {
                merged.with_invalid_geometry()
            }
        },
        None => g.with_geometry_structure(geometries is Some).with_invalid_geometry(),
    }
}

/// A summary with the geometries of a collection.
pub open spec fn geometries_added(g: Geo, items: Seq<json::Json>) -> Geo
    decreases items, 0int,
{
    if items.len() == 0 {
        g
    } else {
        geometry_added(geometries_added(g, items.drop_last()), items[items.len() - 1], false)
    }
}

/// A summary with the properties of a feature.
pub open spec fn properties_added(g: Geo, members: Seq<(Seq<char>, json::Json)>) -> Geo
    decreases members.len(),
{
    if members.len() == 0 {
        g
    } else {
        properties_added(g, members.drop_last()).with_property(members.last().0)
    }
}

/// The members that a feature is known to have.
pub open spec fn feature_members(root: bool) -> Seq<Seq<char>> {
    if root {
        seq!["type"@, "name"@, "properties"@, "geometry"@, "id"@, "bbox"@]
    } else {
        seq!["type"@, "properties"@, "geometry"@, "id"@, "bbox"@]
    }
}

/// A summary with a note of the type that a feature names.
pub open spec fn feature_type_noted(g: Geo, kind: Option<json::Json>) -> Geo {
    if json::text_of(kind) == Some("Feature"@) {
        g
    } else {
        let invalid = g.with_invalid_feature();
        invalid.set(
            GeoCounts {
                discarded_unknown_type_values: invalid.counts.discarded_unknown_type_values || kind is Some,
                ..invalid.counts
            },
        )
    }
}

/// A summary with what is said of the properties of a feature.
pub open spec fn feature_properties_noted(g: Geo, properties: Option<json::Json>) -> Geo {
    match properties {
        Some(json::Json::Object(members)) => properties_added(
            g.set(
                GeoCounts {
                    discarded_feature_properties: g.counts.discarded_feature_properties || members.len() > 0,
                    ..g.counts
                },
            ),
            members,
        ),
        Some(json::Json::Null) | None => g,
        Some(_) => g.set(GeoCounts { discarded_feature_properties: true, ..g.counts }),
    }
}

/// A summary with a note of the identifier of a feature.
pub open spec fn feature_id_noted(g: Geo, id: Option<json::Json>) -> Geo {
    g.set(
        GeoCounts {
            discarded_feature_ids: g.counts.discarded_feature_ids || (id is Some && id->0 !is Null),
            ..g.counts
        },
    )
}

/// A summary with a note of the structure of features, which is left out where a feature is the
/// whole document.
pub open spec fn feature_structure_noted(g: Geo, root: bool) -> Geo {
    g.set(
        GeoCounts {
            discarded_feature_structure: g.counts.discarded_feature_structure || root,
            ..g.counts
        },
    )
}

/// A summary with all of a feature but its geometry.
pub open spec fn feature_noted(g: Geo, object: Seq<(Seq<char>, json::Json)>, root: bool) -> Geo {
    let structured = feature_structure_noted(g.with_members(object, feature_members(root)), root);
    let typed = feature_type_noted(structured, json::member(object, "type"@));
    let noted = feature_properties_noted(typed, json::member(object, "properties"@));
    feature_id_noted(noted, json::member(object, "id"@))
}

/// A summary with a feature.
pub open spec fn feature_added(g: Geo, value: json::Json, root: bool) -> Geo {
    match value {
        json::Json::Object(object) => {
            let noted = feature_noted(g, object, root);
            match json::member(object, "geometry"@) {
                Some(geometry) => geometry_added(
                    noted.with_geometry_structure(json::has_content(geometry)),
                    geometry,
                    false,
                ),
                None => noted,
            }
        },
        _ => g.with_invalid_feature(),
    }
}

/// A summary with the features of a collection.
pub open spec fn features_added(g: Geo, items: Seq<json::Json>) -> Geo
    decreases items.len(),
{
    if items.len() == 0 {
        g
    } else {
        feature_added(features_added(g, items.drop_last()), items.last(), false)
    }
}

/// The type of a document; one that is not known does not count.
pub open spec fn document_type(object: Seq<(Seq<char>, json::Json)>) -> Seq<char> {
    match json::text_of(json::member(object, "type"@)) {
        Some(name) => if name == "FeatureCollection"@ || name == "Feature"@ || is_geometry_type(name) {
            name
        } else {
            "Unknown"@
        },
        None => "Unknown"@,
    }
}

/// A summary of nothing.
pub open spec fn empty_geo() -> Geo {
    Geo { counts: no_counts(), bounds: None, keys: Seq::empty() }
}

/// What is gathered from a document.
pub open spec fn gathered(value: json::Json) -> Geo {
    match value {
        json::Json::Object(object) => {
            let kind = document_type(object);
            let g = empty_geo();
            if kind == "FeatureCollection"@ {
                let seen = g.with_members(object, seq!["type"@, "name"@, "features"@, "bbox"@]);
                match json::member(object, "features"@) {
                    Some(features) => {
                        let noted = seen.set(GeoCounts { discarded_feature_structure: true, ..seen.counts });
                        match features {
                            json::Json::Array(items) => features_added(
                                noted.set(GeoCounts { feature_count: items.len() as usize, ..noted.counts }),
                                items,
                            ),
                            _ => noted.with_invalid_feature(),
                        }
                    },
                    None => seen,
                }
            } else if kind == "Feature"@ {
                feature_added(g.set(GeoCounts { feature_count: 1, ..g.counts }), value, true)
            } else if kind == "Unknown"@ {
                let seen = g.with_members(object, seq!["type"@, "name"@, "bbox"@]);
                seen.set(
                    GeoCounts {
                        discarded_unknown_type_values: json::member(object, "type"@) is Some,
                        ..seen.counts
                    },
                )
            } else {
                geometry_added(g, value, true)
            }
        },
        _ => {
            let g = empty_geo();
            g.set(GeoCounts { discarded_non_object_root: true, ..g.counts })
        },
    }
}

/// What a summary has gathered.
pub struct GeoJsonSummary {
    /// What it counts and leaves out.
    pub counts: GeoCounts,
    /// The rectangle around the positions.
    pub bounds: Option<Bounds>,
    /// The listed property names, in order.
    pub property_keys: Vec<String>,
}

impl View for GeoJsonSummary {
    type V = Geo;

    open spec fn view(&self) -> Geo {
        Geo {
            counts: self.counts,
            bounds: rectangle(self.bounds),
            keys: text::strings(self.property_keys@),
        }
    }
}

fn is_among(name: &str, known: &[&str]) -> (r: bool)
    ensures
        r == exists|k: int| 0 <= k < known@.len() && (#[trigger] known@[k])@ == name@,
{
    let mut i: usize = 0;
    while i < known.len()
        invariant
            i <= known.len(),
            forall|k: int| 0 <= k < i ==> (#[trigger] known@[k])@ != name@,
        decreases known.len() - i,
    {
        if same_str(known[i], name) {
            return true;
        }
        i = i + 1;
    }
    false
}

/// The texts of string slices.
pub open spec fn names_of(known: Seq<&str>) -> Seq<Seq<char>> {
    known.map_values(|s: &str| s@)
}

fn finds_foreign(object: &Vec<(String, JsonValue)>, known: &[&str]) -> (r: bool)
    ensures
        r == has_foreign(json::members(object@), names_of(known@)),
{
    let ghost all = json::members(object@);
    let ghost names = names_of(known@);
    let mut i: usize = 0;
    while i < object.len()
        invariant
            i <= object.len(),
            all == json::members(object@),
            names == names_of(known@),
            forall|k: int|
                0 <= k < i ==> names.contains((#[trigger] all[k]).0) || !json::has_content(all[k].1),
        decreases object.len() - i,
    {
        let known_name = is_among(object[i].0.as_str(), known);
        proof {
            assert(all[i as int] == (object@[i as int].0@, object@[i as int].1@));
            if known_name {
                let k = choose|k: int| 0 <= k < known@.len() && (#[trigger] known@[k])@ == object@[i as int].0@;
                assert(names[k] == all[i as int].0);
            } else {
                assert(!names.contains(all[i as int].0)) by {
                    if names.contains(all[i as int].0) {
                        let k = choose|k: int| 0 <= k < names.len() && names[k] == all[i as int].0;
                        assert(known@[k]@ == object@[i as int].0@);
                    }
                }
            }
        }
        if !known_name && value_has_content(&object[i].1) {
            return true;
        }
        i = i + 1;
    }
    false
}

fn holds_content(value: Option<&JsonValue>) -> (r: bool)
    ensures
        r == (value is Some && json::has_content(value->0@)),
{
    match value {
        Some(v) => value_has_content(v),
        None => false,
    }
}

fn list_key(keys: &mut Vec<String>, key: &str)
    ensures
        text::strings(final(keys)@) == key_inserted(text::strings(old(keys)@), key@),
{
    let ghost before = text::strings(keys@);
    let wanted = chars_of(key);
    let mut i: usize = keys.len();
    proof {
        assert(before.take(i as int) =~= before);
        assert(before.skip(i as int) =~= Seq::empty());
        assert(key_inserted(before, key@) + Seq::empty() =~= key_inserted(before, key@));
    }
    while i > 0 && !comes_before(chars_of(keys[i - 1].as_str()).as_slice(), wanted.as_slice())
        invariant
            i <= keys.len(),
            before == text::strings(keys@),
            keys@ == old(keys)@,
            wanted@ == key@,
            key_inserted(before, key@) == key_inserted(before.take(i as int), key@) + before.skip(i as int),
        decreases i,
    {
        proof {
            assert(before[i - 1] == keys@[i - 1]@);
            assert(before.take(i as int).drop_last() =~= before.take(i - 1));
            let rest = key_inserted(before.take(i - 1), key@);
            assert(rest.push(before[i - 1]) + before.skip(i as int) =~= rest + before.skip(i - 1));
        }
        i = i - 1;
    }
    proof {
        if i > 0 {
            assert(before.take(i as int).last() == keys@[i - 1]@);
        }
        assert(key_inserted(before.take(i as int), key@) == before.take(i as int).push(key@));
    }
    keys.insert(i, key.to_owned());
    proof {
        assert(text::strings(keys@) =~= before.take(i as int).push(key@) + before.skip(i as int));
    }
}

/// The view of an optional value.
pub open spec fn seen(value: Option<&JsonValue>) -> Option<json::Json> {
    match value {
        Some(v) => Some(v@),
        None => None,
    }
}

impl GeoJsonSummary {
    /// A summary of nothing.
    pub fn new() -> (r: Self)
        ensures
            r@ == empty_geo(),
    {
        let r = GeoJsonSummary { counts: zero_counts(), bounds: None, property_keys: Vec::new() };
        proof {
            assert(r@ =~= empty_geo());
        }
        r
    }

    /// Notes the members of an object that are left out.
    pub fn record_discarded_members(&mut self, object: &Vec<(String, JsonValue)>, known: &[&str])
        ensures
            final(self)@ == old(self)@.with_members(json::members(object@), names_of(known@)),
    {
        let boxed = holds_content(find_member(object.as_slice(), "bbox"));
        let foreign = finds_foreign(object, known);
        self.counts.discarded_bounding_boxes = self.counts.discarded_bounding_boxes || boxed;
        self.counts.discarded_foreign_members = self.counts.discarded_foreign_members || foreign;
    }

    /// The number of bytes that the listed names take with one more, if there is room for it.
    fn room_for(&self, key: &str) -> (r: Option<usize>)
        ensures
            ({
                let used = self.counts.property_key_bytes;
                let next = security::saturated(used + text::byte_len(json::json_notation(key@)) as int);
                r == if text::byte_len(key@) + used > MAX_GEOJSON_PROPERTY_KEY_BYTES || self.property_keys@.len()
                    >= MAX_GEOJSON_PROPERTY_KEYS || next > MAX_GEOJSON_PROPERTY_KEY_BYTES {
                    None
                } else {
                    Some(next)
                }
            }),
    {
        let used = self.counts.property_key_bytes;
        if used > MAX_GEOJSON_PROPERTY_KEY_BYTES || str_byte_len(key) > MAX_GEOJSON_PROPERTY_KEY_BYTES - used {
            return None;
        }
        let next = sum_of(used, str_byte_len(json_text(key).as_str()));
        if self.property_keys.len() >= MAX_GEOJSON_PROPERTY_KEYS || next > MAX_GEOJSON_PROPERTY_KEY_BYTES {
            None
        } else {
            Some(next)
        }
    }

    /// Counts a property and lists its name, unless it already is or there is no room for it.
    pub fn record_property_key(&mut self, key: &str)
        ensures
            final(self)@ == old(self)@.with_property(key@),
    {
        let room = self.room_for(key);
        self.counts.property_count = one_more(self.counts.property_count);
        if !contains_string(self.property_keys.as_slice(), key) {
            match room {
                Some(next) => {
                    list_key(&mut self.property_keys, key);
                    self.counts.property_key_bytes = next;
                },
                None => {
                    self.counts.property_keys_truncated = true;
                },
            }
        }
    }

    /// Adds what a scan of coordinates has found; the positions of an invalid geometry do not count.
    pub fn merge_valid_position_scan(&mut self, scan: PositionScan, valid: bool)
        ensures
            final(self)@ == old(self)@.merged(scan@, valid),
    {
        self.counts.malformed_position_array_count = sum_of(
            self.counts.malformed_position_array_count,
            scan.malformed,
        );
        self.counts.empty_coordinate_array_count = sum_of(self.counts.empty_coordinate_array_count, scan.empty);
        if valid {
            self.counts.position_count = sum_of(self.counts.position_count, scan.positions);
            let mut earlier: Option<Bounds> = None;
            std::mem::swap(&mut earlier, &mut self.bounds);
            self.bounds = join_bounds(earlier, scan.bounds);
        }
    }

    fn add_invalid_geometry(&mut self)
        ensures
            final(self)@ == old(self)@.with_invalid_geometry(),
    {
        self.counts.invalid_geometry_count = one_more(self.counts.invalid_geometry_count);
    }

    fn note_geometry_structure(&mut self, left_out: bool)
        ensures
            final(self)@ == old(self)@.with_geometry_structure(left_out),
    {
        self.counts.discarded_geometry_structure = self.counts.discarded_geometry_structure || left_out;
    }

    fn note_coordinates(&mut self, value: Option<&JsonValue>)
        ensures
            final(self)@ == old(self)@.with_coordinates(seen(value)),
    {
        self.counts.discarded_coordinate_arrays = self.counts.discarded_coordinate_arrays || holds_content(value);
    }

    fn note_type(&mut self, kind: &str)
        ensures
            final(self)@ == old(self)@.with_type(kind@),
    {
        self.counts.geometry_count = one_more(self.counts.geometry_count);
        let unknown = self.counts.geometry_types.record(kind);
        self.counts.discarded_unknown_type_values = self.counts.discarded_unknown_type_values || unknown;
    }

    fn note_geometry_members(&mut self, object: &Vec<(String, JsonValue)>, root: bool)
        ensures
            final(self)@ == old(self)@.with_members(json::members(object@), geometry_members(root)),
    {
        if root {
            let known = ["type", "name", "coordinates", "geometries", "bbox"];
            proof {
                assert(names_of(known@) =~= geometry_members(root));
            }
            self.record_discarded_members(object, known.as_slice());
        } else {
            let known = ["type", "coordinates", "geometries", "bbox"];
            proof {
                assert(names_of(known@) =~= geometry_members(root));
            }
            self.record_discarded_members(object, known.as_slice());
        }
    }

    /// Adds a geometry.
    pub fn scan_geojson_geometry(&mut self, geometry: &JsonValue, root: bool)
        ensures
            final(self)@ == geometry_added(old(self)@, geometry@, root),
        decreases *geometry, 1int,
    {
        proof {
            json::lemma_view(*geometry);
        }
        match geometry {
            JsonValue::Null => {
                self.counts.null_geometry_count = one_more(self.counts.null_geometry_count);
            },
            JsonValue::Object(object) => {
                self.note_geometry_members(object, root);
                match as_text(find_member(object.as_slice(), "type")) {
                    Some(kind) => {
                        self.note_type(kind);
                        self.scan_typed_geometry(object, kind);
                    },
                    None => {
                        self.add_invalid_geometry();
                    },
                }
            },
            _ => {
                self.add_invalid_geometry();
            },
        }
    }

    fn scan_typed_geometry(&mut self, object: &Vec<(String, JsonValue)>, kind: &str)
        ensures
            final(self)@ == typed_geometry_added(old(self)@, json::members(object@), kind@),
        decreases object@, 0int,
    {
        let coordinates = find_member(object.as_slice(), "coordinates");
        let geometries = find_member(object.as_slice(), "geometries");
        proof {
            assert(seen(coordinates) == json::member(json::members(object@), "coordinates"@));
            assert(seen(geometries) == json::member(json::members(object@), "geometries"@));
        }
        if same_str(kind, "GeometryCollection") {
            match geometries {
                Some(list) => {
                    proof {
                        let i = choose|i: int| 0 <= i < object@.len() && (#[trigger] object@[i]).1 == *list;
                        assert(decreases_to!(object@ => object@[i]));
                    }
                    self.scan_collection(coordinates, list);
                },
                None => {
                    self.note_coordinates(coordinates);
                    self.add_invalid_geometry();
                },
            }
        } else if same_str(kind, "Point") || same_str(kind, "MultiPoint") || same_str(kind, "LineString") || same_str(
            kind,
            "MultiLineString",
        ) || same_str(kind, "Polygon") || same_str(kind, "MultiPolygon") {
            self.scan_shape(kind, coordinates, geometries.is_some());
        } else {
            self.add_invalid_geometry();
        }
    }

    fn scan_collection(&mut self, coordinates: Option<&JsonValue>, geometries: &JsonValue)
        ensures
            final(self)@ == collection_added(old(self)@, seen(coordinates), geometries@),
        decreases *geometries, 0int,
    {
        proof {
            json::lemma_view(*geometries);
        }
        self.note_coordinates(coordinates);
        self.note_geometry_structure(true);
        if let JsonValue::Array(items) = geometries {
            self.scan_geometries(items);
            if coordinates.is_some() {
                self.add_invalid_geometry();
            }
            return;
        }
        self.add_invalid_geometry();
    }

    fn scan_shape(&mut self, kind: &str, coordinates: Option<&JsonValue>, has_geometries: bool)
        ensures
            forall|geometries: Option<json::Json>|
                has_geometries == (geometries is Some) ==> final(self)@ == #[trigger] shape_added(
                    old(self)@,
                    kind@,
                    seen(coordinates),
                    geometries,
                ),
    {
        let mut valid = false;
        if let Some(list) = coordinates {
            self.note_coordinates(coordinates);
            let (scan, shaped) = scan_geojson_coordinates(kind, list);
            self.merge_valid_position_scan(scan, shaped);
            valid = shaped;
        }
        self.note_geometry_structure(has_geometries);
        if !valid || has_geometries {
            self.add_invalid_geometry();
        }
    }

    fn scan_geometries(&mut self, items: &Vec<JsonValue>)
        ensures
            final(self)@ == geometries_added(old(self)@, json::values(items@)),
        decreases items@, 0int,
    {
        let ghost all = json::values(items@);
        let mut i: usize = 0;
        proof {
            assert(all.take(0) =~= Seq::empty());
        }
        while i < items.len()
            invariant
                i <= items.len(),
                all == json::values(items@),
                self@ == geometries_added(old(self)@, all.take(i as int)),
            decreases items.len() - i,
        {
            proof {
                assert(all.take(i + 1).drop_last() =~= all.take(i as int));
                assert(all.take(i + 1)[i as int] == items@[i as int]@);
                assert(decreases_to!(items@ => items@[i as int]));
            }
            self.scan_geojson_geometry(&items[i], false);
            i = i + 1;
        }
        proof {
            assert(all.take(all.len() as int) =~= all);
        }
    }
}

impl GeoJsonSummary {
    fn note_feature_type(&mut self, kind: Option<&JsonValue>)
        ensures
            final(self)@ == feature_type_noted(old(self)@, seen(kind)),
    {
        let named = match as_text(kind) {
            Some(name) => same_str(name, "Feature"),
            None => false,
        };
        if !named {
            self.counts.invalid_feature_count = one_more(self.counts.invalid_feature_count);
            self.counts.discarded_unknown_type_values = self.counts.discarded_unknown_type_values || kind.is_some();
        }
    }

    fn note_properties(&mut self, properties: Option<&JsonValue>)
        ensures
            final(self)@ == feature_properties_noted(old(self)@, seen(properties)),
    {
        match properties {
            Some(value) => {
                proof {
                    json::lemma_view(*value);
                }
                match value {
                    JsonValue::Object(members) => {
                        self.counts.discarded_feature_properties = self.counts.discarded_feature_properties
                            || members.len() > 0;
                        self.add_properties(members);
                    },
                    JsonValue::Null => {},
                    _ => {
                        self.counts.discarded_feature_properties = true;
                    },
                }
            },
            None => {},
        }
    }

    fn add_properties(&mut self, members: &Vec<(String, JsonValue)>)
        ensures
            final(self)@ == properties_added(old(self)@, json::members(members@)),
    {
        let ghost all = json::members(members@);
        let mut i: usize = 0;
        while i < members.len()
            invariant
                i <= members.len(),
                all == json::members(members@),
                self@ == properties_added(old(self)@, all.take(i as int)),
            decreases members.len() - i,
        {
            proof {
                assert(all.take(i + 1).drop_last() =~= all.take(i as int));
                assert(all.take(i + 1).last().0 == members@[i as int].0@);
            }
            self.record_property_key(members[i].0.as_str());
            i = i + 1;
        }
        proof {
            assert(all.take(all.len() as int) =~= all);
        }
    }

    fn note_feature_members(&mut self, object: &Vec<(String, JsonValue)>, root: bool)
        ensures
            final(self)@ == old(self)@.with_members(json::members(object@), feature_members(root)),
    {
        if root {
            let known = ["type", "name", "properties", "geometry", "id", "bbox"];
            proof {
                assert(names_of(known@) =~= feature_members(root));
            }
            self.record_discarded_members(object, known.as_slice());
        } else {
            let known = ["type", "properties", "geometry", "id", "bbox"];
            proof {
                assert(names_of(known@) =~= feature_members(root));
            }
            self.record_discarded_members(object, known.as_slice());
        }
    }

    fn note_feature_id(&mut self, id: Option<&JsonValue>)
        ensures
            final(self)@ == feature_id_noted(old(self)@, seen(id)),
    {
        let identified = match id {
            Some(JsonValue::Null) => false,
            Some(_) => true,
            None => false,
        };
        self.counts.discarded_feature_ids = self.counts.discarded_feature_ids || identified;
    }

    fn note_feature_structure(&mut self, root: bool)
        ensures
            final(self)@ == feature_structure_noted(old(self)@, root),
    {
        self.counts.discarded_feature_structure = self.counts.discarded_feature_structure || root;
    }

    fn note_feature(&mut self, object: &Vec<(String, JsonValue)>, root: bool)
        ensures
            final(self)@ == feature_noted(old(self)@, json::members(object@), root),
    {
        let kind = find_member(object.as_slice(), "type");
        let properties = find_member(object.as_slice(), "properties");
        let id = find_member(object.as_slice(), "id");
        proof {
            assert(seen(kind) == json::member(json::members(object@), "type"@));
            assert(seen(properties) == json::member(json::members(object@), "properties"@));
            assert(seen(id) == json::member(json::members(object@), "id"@));
        }
        self.note_feature_members(object, root);
        self.note_feature_structure(root);
        self.note_feature_type(kind);
        self.note_properties(properties);
        self.note_feature_id(id);
    }

    /// Adds a feature.
    pub fn scan_geojson_feature(&mut self, feature: &JsonValue, root: bool)
        ensures
            final(self)@ == feature_added(old(self)@, feature@, root),
    {
        proof {
            json::lemma_view(*feature);
        }
        match feature {
            JsonValue::Object(object) => {
                self.note_feature(object, root);
                if let Some(geometry) = find_member(object.as_slice(), "geometry") {
                    self.note_geometry_structure(value_has_content(geometry));
                    self.scan_geojson_geometry(geometry, false);
                }
            },
            _ => {
                self.counts.invalid_feature_count = one_more(self.counts.invalid_feature_count);
            },
        }
    }

    fn scan_features(&mut self, items: &Vec<JsonValue>)
        ensures
            final(self)@ == features_added(old(self)@, json::values(items@)),
    {
        let ghost all = json::values(items@);
        let mut i: usize = 0;
        while i < items.len()
            invariant
                i <= items.len(),
                all == json::values(items@),
                self@ == features_added(old(self)@, all.take(i as int)),
            decreases items.len() - i,
        {
            proof {
                assert(all.take(i + 1).drop_last() =~= all.take(i as int));
                assert(all.take(i + 1).last() == items@[i as int]@);
            }
            self.scan_geojson_feature(&items[i], false);
            i = i + 1;
        }
        proof {
            assert(all.take(all.len() as int) =~= all);
        }
    }

    fn scan_feature_collection(&mut self, object: &Vec<(String, JsonValue)>)
        requires
            old(self)@ == empty_geo(),
        ensures
            ({
                let object = json::members(object@);
                let seen = empty_geo().with_members(object, seq!["type"@, "name"@, "features"@, "bbox"@]);
                final(self)@ == match json::member(object, "features"@) {
                    Some(features) => {
                        let noted = seen.set(GeoCounts { discarded_feature_structure: true, ..seen.counts });
                        match features {
                            json::Json::Array(items) => features_added(
                                noted.set(GeoCounts { feature_count: items.len() as usize, ..noted.counts }),
                                items,
                            ),
                            _ => noted.with_invalid_feature(),
                        }
                    },
                    None => seen,
                }
            }),
    {
        let known = ["type", "name", "features", "bbox"];
        proof {
            assert(names_of(known@) =~= seq!["type"@, "name"@, "features"@, "bbox"@]);
        }
        self.record_discarded_members(object, known.as_slice());
        if let Some(features) = find_member(object.as_slice(), "features") {
            proof {
                json::lemma_view(*features);
            }
            self.counts.discarded_feature_structure = true;
            match features {
                JsonValue::Array(items) => {
                    self.counts.feature_count = items.len();
                    self.scan_features(items);
                },
                _ => {
                    self.counts.invalid_feature_count = one_more(self.counts.invalid_feature_count);
                },
            }
        }
    }
}

fn type_of_document(object: &Vec<(String, JsonValue)>) -> (r: &'static str)
    ensures
        r@ == document_type(json::members(object@)),
{
    match as_text(find_member(object.as_slice(), "type")) {
        Some(name) => {
            if same_str(name, "FeatureCollection") {
                return "FeatureCollection";
            }
            if same_str(name, "Feature") {
                return "Feature";
            }
            if same_str(name, "Point") {
                return "Point";
            }
            if same_str(name, "MultiPoint") {
                return "MultiPoint";
            }
            if same_str(name, "LineString") {
                return "LineString";
            }
            if same_str(name, "MultiLineString") {
                return "MultiLineString";
            }
            if same_str(name, "Polygon") {
                return "Polygon";
            }
            if same_str(name, "MultiPolygon") {
                return "MultiPolygon";
            }
            if same_str(name, "GeometryCollection") {
                return "GeometryCollection";
            }
            "Unknown"
        },
        None => "Unknown",
    }
}

/// Gathers what a summary of a document says.
pub fn gather_geojson(value: &JsonValue) -> (r: GeoJsonSummary)
    ensures
        r@ == gathered(value@),
{
    proof {
        json::lemma_view(*value);
        reveal_strlit("FeatureCollection");
        reveal_strlit("Feature");
        reveal_strlit("Unknown");
    }
    let mut summary = GeoJsonSummary::new();
    let object = match value {
        JsonValue::Object(object) => object,
        _ => {
            summary.counts.discarded_non_object_root = true;
            return summary;
        },
    };
    let kind = type_of_document(object);
    if same_str(kind, "FeatureCollection") {
        summary.scan_feature_collection(object);
    } else if same_str(kind, "Feature") {
        summary.counts.feature_count = 1;
        summary.scan_geojson_feature(value, true);
    } else if same_str(kind, "Unknown") {
        let known = ["type", "name", "bbox"];
        proof {
            assert(names_of(known@) =~= seq!["type"@, "name"@, "bbox"@]);
        }
        summary.record_discarded_members(object, known.as_slice());
        summary.counts.discarded_unknown_type_values = find_member(object.as_slice(), "type").is_some();
    } else {
        summary.scan_geojson_geometry(value, true);
    }
    summary
}

/// How many geometries of each type there are, as a value.
pub open spec fn types_json(counts: GeometryTypeCounts) -> json::Json {
    json::Json::Object(
        seq![
            ("Point"@, json::count_number(counts.point as nat)),
            ("MultiPoint"@, json::count_number(counts.multi_point as nat)),
            ("LineString"@, json::count_number(counts.line_string as nat)),
            ("MultiLineString"@, json::count_number(counts.multi_line_string as nat)),
            ("Polygon"@, json::count_number(counts.polygon as nat)),
            ("MultiPolygon"@, json::count_number(counts.multi_polygon as nat)),
            ("GeometryCollection"@, json::count_number(counts.geometry_collection as nat)),
            ("Unknown"@, json::count_number(counts.unknown as nat)),
        ],
    )
}

/// A double as a value.
pub open spec fn double_json(d: json::DoubleData) -> json::Json {
    json::Json::Number(json::Number { text: d.text, integer: false, double: Some(d) })
}

/// A rectangle as a value.
pub open spec fn bounds_json(bounds: Option<Rectangle>) -> json::Json {
    match bounds {
        Some(b) => json::Json::Array(
            seq![double_json(b.min_x), double_json(b.min_y), double_json(b.max_x), double_json(b.max_y)],
        ),
        None => json::Json::Null,
    }
}

/// A list with a name if something is left out.
pub open spec fn listed_if(list: Seq<Seq<char>>, left_out: bool, name: Seq<char>) -> Seq<Seq<char>> {
    if left_out {
        list.push(name)
    } else {
        list
    }
}

/// The names of what is left out.
pub open spec fn discarded_categories(c: GeoCounts) -> Seq<Seq<char>> {
    let l0 = Seq::empty();
    let l1 = listed_if(l0, c.discarded_coordinate_arrays, "coordinate_arrays"@);
    let l2 = listed_if(l1, c.discarded_feature_structure, "feature_structure"@);
    let l3 = listed_if(l2, c.discarded_geometry_structure, "geometry_structure"@);
    let l4 = listed_if(l3, c.discarded_feature_properties, "feature_property_values"@);
    let l5 = listed_if(l4, c.discarded_feature_ids, "feature_ids"@);
    let l6 = listed_if(l5, c.discarded_bounding_boxes, "declared_bounding_boxes"@);
    let l7 = listed_if(l6, c.discarded_foreign_members, "foreign_members"@);
    let l8 = listed_if(l7, c.discarded_unknown_type_values, "unknown_type_values"@);
    let l9 = listed_if(l8, c.discarded_non_object_root, "non_object_root"@);
    l9
}

/// The name of a document, cut to the length that a summary keeps, and whether anything was cut off.
pub open spec fn summary_name(value: json::Json) -> (json::Json, bool) {
    match value {
        json::Json::Object(object) => match json::text_of(json::member(object, "name"@)) {
            Some(name) => (
                json::Json::Text(text::prefix_within(name, MAX_GEOJSON_NAME_BYTES as nat)),
                text::byte_len(name) > MAX_GEOJSON_NAME_BYTES,
            ),
            None => (json::Json::Null, false),
        },
        _ => (json::Json::Null, false),
    }
}

/// The type that a summary names.
pub open spec fn summary_type(value: json::Json) -> Seq<char> {
    match value {
        json::Json::Object(object) => document_type(object),
        _ => "Unknown"@,
    }
}

/// The summary of a document.
pub open spec fn summary_of(value: json::Json) -> json::Json {
    let g = gathered(value);
    json::Json::Object(
        seq![
            ("type"@, json::Json::Text(summary_type(value))),
            ("name"@, summary_name(value).0),
            ("name_truncated"@, json::Json::Bool(summary_name(value).1)),
            ("feature_count"@, json::count_number(g.counts.feature_count as nat)),
            ("geometry_count"@, json::count_number(g.counts.geometry_count as nat)),
            ("null_geometry_count"@, json::count_number(g.counts.null_geometry_count as nat)),
            ("invalid_geometry_count"@, json::count_number(g.counts.invalid_geometry_count as nat)),
            ("invalid_feature_count"@, json::count_number(g.counts.invalid_feature_count as nat)),
            ("geometry_types"@, types_json(g.counts.geometry_types)),
            ("property_count"@, json::count_number(g.counts.property_count as nat)),
            ("property_keys"@, json::text_values(g.keys)),
            ("property_keys_truncated"@, json::Json::Bool(g.counts.property_keys_truncated)),
            ("position_count"@, json::count_number(g.counts.position_count as nat)),
            ("malformed_position_array_count"@, json::count_number(g.counts.malformed_position_array_count as nat)),
            ("empty_coordinate_array_count"@, json::count_number(g.counts.empty_coordinate_array_count as nat)),
            ("bounds"@, bounds_json(g.bounds)),
            ("discarded_categories"@, json::text_values(discarded_categories(g.counts))),
        ],
    )
}

fn types_value(counts: GeometryTypeCounts) -> (r: JsonValue)
    ensures
        r@ == types_json(counts),
{
    let list = vec![
        ("Point".to_owned(), number_of_count(counts.point)),
        ("MultiPoint".to_owned(), number_of_count(counts.multi_point)),
        ("LineString".to_owned(), number_of_count(counts.line_string)),
        ("MultiLineString".to_owned(), number_of_count(counts.multi_line_string)),
        ("Polygon".to_owned(), number_of_count(counts.polygon)),
        ("MultiPolygon".to_owned(), number_of_count(counts.multi_polygon)),
        ("GeometryCollection".to_owned(), number_of_count(counts.geometry_collection)),
        ("Unknown".to_owned(), number_of_count(counts.unknown)),
    ];
    let ghost items = list@;
    let r = JsonValue::Object(list);
    proof {
        json::lemma_view(r);
        assert(json::members(items) =~= types_json(counts)->Object_0);
    }
    r
}

fn double_value(d: &Double) -> (r: JsonValue)
    ensures
        r@ == double_json(d@),
{
    JsonValue::Number(JsonNumber { text: d.text.clone(), integer: false, double: Some(copy_double(d)) })
}

fn bounds_value(bounds: &Option<Bounds>) -> (r: JsonValue)
    ensures
        r@ == bounds_json(rectangle(*bounds)),
{
    match bounds {
        Some(b) => {
            let list = vec![
                double_value(&b.min_x),
                double_value(&b.min_y),
                double_value(&b.max_x),
                double_value(&b.max_y),
            ];
            let ghost items = list@;
            let r = JsonValue::Array(list);
            proof {
                json::lemma_view(r);
                assert(json::values(items) =~= bounds_json(rectangle(*bounds))->Array_0);
            }
            r
        },
        None => JsonValue::Null,
    }
}

fn list_if(list: &mut Vec<String>, left_out: bool, name: &str)
    ensures
        text::strings(final(list)@) == listed_if(text::strings(old(list)@), left_out, name@),
{
    if left_out {
        let item = name.to_owned();
        proof {
            assert(text::strings(list@.push(item)) =~= text::strings(list@).push(name@));
        }
        list.push(item);
    }
}

fn categories(c: &GeoCounts) -> (r: Vec<String>)
    ensures
        text::strings(r@) == discarded_categories(*c),
{
    let mut list: Vec<String> = Vec::new();
    proof {
        assert(text::strings(list@) =~= Seq::<Seq<char>>::empty());
    }
    list_if(&mut list, c.discarded_coordinate_arrays, "coordinate_arrays");
    list_if(&mut list, c.discarded_feature_structure, "feature_structure");
    list_if(&mut list, c.discarded_geometry_structure, "geometry_structure");
    list_if(&mut list, c.discarded_feature_properties, "feature_property_values");
    list_if(&mut list, c.discarded_feature_ids, "feature_ids");
    list_if(&mut list, c.discarded_bounding_boxes, "declared_bounding_boxes");
    list_if(&mut list, c.discarded_foreign_members, "foreign_members");
    list_if(&mut list, c.discarded_unknown_type_values, "unknown_type_values");
    list_if(&mut list, c.discarded_non_object_root, "non_object_root");
    list
}

fn name_value(value: &JsonValue) -> (r: (JsonValue, bool))
    ensures
        (r.0@, r.1) == summary_name(value@),
{
    proof {
        json::lemma_view(*value);
    }
    if let JsonValue::Object(object) = value {
        if let Some(name) = as_text(find_member(object.as_slice(), "name")) {
            let (kept, truncated) = truncate_utf8(name, MAX_GEOJSON_NAME_BYTES);
            return (JsonValue::Text(kept), truncated);
        }
    }
    (JsonValue::Null, false)
}

fn type_value(value: &JsonValue) -> (r: JsonValue)
    ensures
        r@ == json::Json::Text(summary_type(value@)),
{
    proof {
        json::lemma_view(*value);
    }
    match value {
        JsonValue::Object(object) => JsonValue::Text(type_of_document(object).to_owned()),
        _ => JsonValue::Text("Unknown".to_owned()),
    }
}

/// Summarises a document.
pub fn summarize_geojson(value: &JsonValue) -> (r: JsonValue)
    ensures
        r@ == summary_of(value@),
{
    let summary = gather_geojson(value);
    let c = &summary.counts;
    let (name, name_truncated) = name_value(value);
    let kind = type_value(value);
    let discarded = categories(c);
    let mut list: Vec<(String, JsonValue)> = Vec::new();
    proof {
        assert(json::members(list@) =~= Seq::empty());
    }
    push_member(&mut list, "type", kind);
    push_member(&mut list, "name", name);
    push_member(&mut list, "name_truncated", JsonValue::Bool(name_truncated));
    push_member(&mut list, "feature_count", number_of_count(c.feature_count));
    push_member(&mut list, "geometry_count", number_of_count(c.geometry_count));
    push_member(&mut list, "null_geometry_count", number_of_count(c.null_geometry_count));
    push_member(&mut list, "invalid_geometry_count", number_of_count(c.invalid_geometry_count));
    push_member(&mut list, "invalid_feature_count", number_of_count(c.invalid_feature_count));
    push_member(&mut list, "geometry_types", types_value(c.geometry_types));
    push_member(&mut list, "property_count", number_of_count(c.property_count));
    push_member(&mut list, "property_keys", list_of_texts(summary.property_keys.as_slice()));
    push_member(&mut list, "property_keys_truncated", JsonValue::Bool(c.property_keys_truncated));
    push_member(&mut list, "position_count", number_of_count(c.position_count));
    push_member(&mut list, "malformed_position_array_count", number_of_count(c.malformed_position_array_count));
    push_member(&mut list, "empty_coordinate_array_count", number_of_count(c.empty_coordinate_array_count));
    push_member(&mut list, "bounds", bounds_value(&summary.bounds));
    push_member(&mut list, "discarded_categories", list_of_texts(discarded.as_slice()));
    let ghost items = list@;
    let r = JsonValue::Object(list);
    proof {
        json::lemma_view(r);
        assert(json::members(items) =~= summary_of(value@)->Object_0);
    }
    r
}

/// A value charged to a ledger: each value is one step, each text and each name is held against the
/// token cap, and each list and object is one level of nesting.
pub open spec fn value_charged(l: Ledger, value: json::Json) -> Ledger
    decreases value, 1int,
{
    match value {
        json::Json::Text(s) => l.stepped().checked(s),
        json::Json::Array(items) => items_charged(l.stepped().entered(), items).left(),
        json::Json::Object(members) => members_charged(l.stepped().entered(), members).left(),
        _ => l.stepped(),
    }
}

/// Values charged to a ledger.
pub open spec fn items_charged(l: Ledger, items: Seq<json::Json>) -> Ledger
    decreases items, 0int,
{
    if items.len() == 0 {
        l
    } else {
        value_charged(items_charged(l, items.drop_last()), items[items.len() - 1])
    }
}

/// Named values charged to a ledger.
pub open spec fn members_charged(l: Ledger, members: Seq<(Seq<char>, json::Json)>) -> Ledger
    decreases members, 0int,
{
    if members.len() == 0 {
        l
    } else {
        value_charged(
            members_charged(l, members.drop_last()).checked(members[members.len() - 1].0),
            members[members.len() - 1].1,
        )
    }
}

proof fn lemma_charge_stays(l: Ledger, value: json::Json)
    requires
        l.verdict is Err,
    ensures
        value_charged(l, value) == l,
    decreases value, 1int,
{
    match value {
        json::Json::Array(items) => {
            lemma_items_charge_stays(l, items);
        },
        json::Json::Object(members) => {
            lemma_members_charge_stays(l, members);
        },
        _ => {},
    }
}

proof fn lemma_items_charge_stays(l: Ledger, items: Seq<json::Json>)
    requires
        l.verdict is Err,
    ensures
        items_charged(l, items) == l,
    decreases items, 0int,
{
    if items.len() > 0 {
        lemma_items_charge_stays(l, items.drop_last());
        lemma_charge_stays(l, items[items.len() - 1]);
    }
}

proof fn lemma_members_charge_stays(l: Ledger, members: Seq<(Seq<char>, json::Json)>)
    requires
        l.verdict is Err,
    ensures
        members_charged(l, members) == l,
    decreases members, 0int,
{
    if members.len() > 0 {
        lemma_members_charge_stays(l, members.drop_last());
        lemma_charge_stays(l, members[members.len() - 1].1);
    }
}

proof fn lemma_items_charge_stays_from(l: Ledger, items: Seq<json::Json>, n: int)
    requires
        0 <= n <= items.len(),
        items_charged(l, items.take(n)).verdict is Err,
    ensures
        items_charged(l, items) == items_charged(l, items.take(n)),
    decreases items.len() - n,
{
    if n == items.len() {
        assert(items.take(n) =~= items);
    } else {
        assert(items.take(n + 1).drop_last() =~= items.take(n));
        lemma_charge_stays(items_charged(l, items.take(n)), items[n]);
        lemma_items_charge_stays_from(l, items, n + 1);
    }
}

proof fn lemma_members_charge_stays_from(l: Ledger, members: Seq<(Seq<char>, json::Json)>, n: int)
    requires
        0 <= n <= members.len(),
        members_charged(l, members.take(n)).verdict is Err,
    ensures
        members_charged(l, members) == members_charged(l, members.take(n)),
    decreases members.len() - n,
{
    if n == members.len() {
        assert(members.take(n) =~= members);
    } else {
        assert(members.take(n + 1).drop_last() =~= members.take(n));
        lemma_charge_stays(members_charged(l, members.take(n)), members[n].1);
        lemma_members_charge_stays_from(l, members, n + 1);
    }
}

/// Charges a value to a ledger.
pub fn validate_geojson_value(value: &JsonValue, ledger: &mut Ledger)
    ensures
        *final(ledger) == value_charged(*old(ledger), value@),
    decreases *value, 1int,
{
    proof {
        json::lemma_view(*value);
    }
    ledger.step();
    match value {
        JsonValue::Text(s) => {
            ledger.check_entity(s.as_str());
        },
        JsonValue::Array(items) => {
            ledger.enter();
            validate_items(items, ledger);
            ledger.leave();
        },
        JsonValue::Object(members) => {
            ledger.enter();
            validate_members(members, ledger);
            ledger.leave();
        },
        _ => {},
    }
}

fn validate_items(items: &Vec<JsonValue>, ledger: &mut Ledger)
    ensures
        *final(ledger) == items_charged(*old(ledger), json::values(items@)),
    decreases items@, 0int,
{
    let ghost all = json::values(items@);
    let mut i: usize = 0;
    proof {
        assert(all.take(0) =~= Seq::empty());
    }
    while i < items.len()
        invariant
            i <= items.len(),
            all == json::values(items@),
            *ledger == items_charged(*old(ledger), all.take(i as int)),
        decreases items.len() - i,
    {
        if ledger.failed() {
            proof {
                lemma_items_charge_stays_from(*old(ledger), all, i as int);
            }
            return;
        }
        proof {
            assert(all.take(i + 1).drop_last() =~= all.take(i as int));
            assert(all.take(i + 1)[i as int] == items@[i as int]@);
            assert(decreases_to!(items@ => items@[i as int]));
        }
        validate_geojson_value(&items[i], ledger);
        i = i + 1;
    }
    proof {
        assert(all.take(all.len() as int) =~= all);
    }
}

fn validate_members(members: &Vec<(String, JsonValue)>, ledger: &mut Ledger)
    ensures
        *final(ledger) == members_charged(*old(ledger), json::members(members@)),
    decreases members@, 0int,
{
    let ghost all = json::members(members@);
    let mut i: usize = 0;
    proof {
        assert(all.take(0) =~= Seq::empty());
    }
    while i < members.len()
        invariant
            i <= members.len(),
            all == json::members(members@),
            *ledger == members_charged(*old(ledger), all.take(i as int)),
        decreases members.len() - i,
    {
        if ledger.failed() {
            proof {
                lemma_members_charge_stays_from(*old(ledger), all, i as int);
            }
            return;
        }
        proof {
            assert(all.take(i + 1).drop_last() =~= all.take(i as int));
            assert(all.take(i + 1)[i as int] == (members@[i as int].0@, members@[i as int].1@));
            assert(decreases_to!(members@ => members@[i as int]));
        }
        ledger.check_entity(members[i].0.as_str());
        validate_geojson_value(&members[i].1, ledger);
        i = i + 1;
    }
    proof {
        assert(all.take(all.len() as int) =~= all);
    }
}

/// The ceilings of a configuration.
pub open spec fn limits_of(config: ExtractionConfig) -> SecurityLimits {
    match config.security_limits {
        Some(limits) => limits,
        None => security::default_limits(),
    }
}

/// What is said of the size of a document before it is parsed.
pub open spec fn size_verdict(size: usize, config: ExtractionConfig) -> Result<(), SecurityError> {
    if size > limits_of(config).max_content_size {
        Err(SecurityError::ContentTooLarge { size, max: limits_of(config).max_content_size })
    } else {
        Ok(())
    }
}

/// Rejects a document that is too large to be parsed.
pub fn check_geojson_size(size: usize, config: &ExtractionConfig) -> (r: Result<(), XbergError>)
    ensures
        match size_verdict(size, *config) {
            Ok(()) => r is Ok,
            Err(limit) => r is Err && error::reports(r->Err_0, limit),
        },
{
    let max = match &config.security_limits {
        Some(limits) => limits.max_content_size,
        None => SecurityLimits::default().max_content_size,
    };
    if size > max {
        return Err(security_error(SecurityError::ContentTooLarge { size, max }));
    }
    Ok(())
}

/// The summary of a parsed document, if it is within the ceilings.
pub fn summarize_within_limits(value: &JsonValue, config: &ExtractionConfig) -> (r: Result<JsonValue, XbergError>)
    ensures
        match value_charged(security::open_ledger(security::configured_budget(*config)), value@).verdict {
            Err(limit) => r is Err && error::reports(r->Err_0, limit),
            Ok(()) => r matches Ok(summary) && summary@ == summary_of(value@),
        },
{
    let mut ledger = Ledger::new(SecurityBudget::from_config(config));
    validate_geojson_value(value, &mut ledger);
    if let Err(limit) = ledger.verdict {
        return Err(security_error(limit));
    }
    Ok(summarize_geojson(value))
}

/// Whether a result tells the summary of a document: the ceiling that its size passes, why it cannot be parsed, the
/// ceiling that its values pass, or the summary.
pub open spec fn tells_summary(r: Result<JsonValue, XbergError>, content: Seq<u8>, config: ExtractionConfig) -> bool {
    match size_verdict(content.len() as usize, config) {
        Err(limit) => r is Err && error::reports(r->Err_0, limit),
        Ok(()) => match json::json_read(content) {
            Err(reason) => r is Err && error::tells_parsing(r->Err_0, "Failed to parse GeoJSON: "@ + reason),
            Ok(value) => match value_charged(
                security::open_ledger(security::configured_budget(config)),
                value,
            ).verdict {
                Err(limit) => r is Err && error::reports(r->Err_0, limit),
                Ok(()) => r matches Ok(summary) && summary@ == summary_of(value),
            },
        },
    }
}

/// The summary of a document, if it can be parsed and is within the ceilings. One that is too large is not parsed.
pub fn parse_geojson_summary(content: &[u8], config: &ExtractionConfig) -> (r: Result<JsonValue, XbergError>)
    ensures
        tells_summary(r, content@, *config),
{
    if let Err(error) = check_geojson_size(content.len(), config) {
        return Err(error);
    }
    match read_json(content) {
        Ok(value) => summarize_within_limits(&value, config),
        Err(reason) => {
            let mut message = "Failed to parse GeoJSON: ".to_owned();
            message.append(reason.as_str());
            Err(XbergError::parsing(message.as_str()))
        },
    }
}

/// Whether the listed property names are within their bounds.
pub open spec fn keys_bounded(g: Geo) -> bool {
    g.keys.len() <= MAX_GEOJSON_PROPERTY_KEYS && g.counts.property_key_bytes <= MAX_GEOJSON_PROPERTY_KEY_BYTES
}

/// However many properties a document has, its summary lists at most so many names in at most so
/// many bytes, and its name is cut to its bound.
pub proof fn law_summary_is_bounded(value: json::Json)
    ensures
        keys_bounded(gathered(value)),
        summary_name(value).0 matches json::Json::Text(name) ==> text::byte_len(name) <= MAX_GEOJSON_NAME_BYTES,
{
    if let json::Json::Object(object) = value {
        if let Some(name) = json::text_of(json::member(object, "name"@)) {
            text::law_truncation_keeps_the_longest_beginning(name, MAX_GEOJSON_NAME_BYTES as nat);
        }
        let g = empty_geo();
        let kind = document_type(object);
        if kind == "FeatureCollection"@ {
            let seen = g.with_members(object, seq!["type"@, "name"@, "features"@, "bbox"@]);
            if let Some(json::Json::Array(items)) = json::member(object, "features"@) {
                let noted = seen.set(GeoCounts { discarded_feature_structure: true, ..seen.counts });
                lemma_features_bounded(
                    noted.set(GeoCounts { feature_count: items.len() as usize, ..noted.counts }),
                    items,
                );
            }
        } else if kind == "Feature"@ {
            lemma_feature_bounded(g.set(GeoCounts { feature_count: 1, ..g.counts }), value, true);
        } else if kind != "Unknown"@ {
            lemma_geometry_keeps_keys(g, value, true);
        }
    }
}

proof fn lemma_features_bounded(g: Geo, items: Seq<json::Json>)
    requires
        keys_bounded(g),
    ensures
        keys_bounded(features_added(g, items)),
    decreases items.len(),
{
    if items.len() > 0 {
        lemma_features_bounded(g, items.drop_last());
        lemma_feature_bounded(features_added(g, items.drop_last()), items.last(), false);
    }
}

proof fn lemma_feature_bounded(g: Geo, value: json::Json, root: bool)
    requires
        keys_bounded(g),
    ensures
        keys_bounded(feature_added(g, value, root)),
{
    if let json::Json::Object(object) = value {
        let structured = feature_structure_noted(g.with_members(object, feature_members(root)), root);
        let typed = feature_type_noted(structured, json::member(object, "type"@));
        let noted = feature_properties_noted(typed, json::member(object, "properties"@));
        if let Some(json::Json::Object(members)) = json::member(object, "properties"@) {
            lemma_properties_bounded(
                typed.set(
                    GeoCounts {
                        discarded_feature_properties: typed.counts.discarded_feature_properties || members.len()
                            > 0,
                        ..typed.counts
                    },
                ),
                members,
            );
        }
        assert(keys_bounded(noted));
        let named = feature_noted(g, object, root);
        if let Some(geometry) = json::member(object, "geometry"@) {
            lemma_geometry_keeps_keys(
                named.with_geometry_structure(json::has_content(geometry)),
                geometry,
                false,
            );
        }
    }
}

proof fn lemma_properties_bounded(g: Geo, members: Seq<(Seq<char>, json::Json)>)
    requires
        keys_bounded(g),
    ensures
        keys_bounded(properties_added(g, members)),
    decreases members.len(),
{
    if members.len() > 0 {
        lemma_properties_bounded(g, members.drop_last());
        let before = properties_added(g, members.drop_last());
        lemma_key_inserted(before.keys, members.last().0);
    }
}

proof fn lemma_key_inserted(keys: Seq<Seq<char>>, key: Seq<char>)
    ensures
        key_inserted(keys, key).len() == keys.len() + 1,
    decreases keys.len(),
{
    if keys.len() > 0 {
        lemma_key_inserted(keys.drop_last(), key);
    }
}

/// A geometry has no properties.
proof fn lemma_geometry_keeps_keys(g: Geo, value: json::Json, root: bool)
    ensures
        geometry_added(g, value, root).keys == g.keys,
        geometry_added(g, value, root).counts.property_key_bytes == g.counts.property_key_bytes,
    decreases value, 1int,
{
    if let json::Json::Object(object) = value {
        let seen = g.with_members(object, geometry_members(root));
        if let Some(kind) = json::text_of(json::member(object, "type"@)) {
            lemma_typed_geometry_keeps_keys(seen.with_type(kind), object, kind);
        }
    }
}

proof fn lemma_typed_geometry_keeps_keys(g: Geo, object: Seq<(Seq<char>, json::Json)>, kind: Seq<char>)
    ensures
        typed_geometry_added(g, object, kind).keys == g.keys,
        typed_geometry_added(g, object, kind).counts.property_key_bytes == g.counts.property_key_bytes,
    decreases object, 0int,
{
    json::lemma_member_is_smaller(object, "geometries"@);
    if let Some(list) = json::member(object, "geometries"@) {
        lemma_collection_keeps_keys(g, json::member(object, "coordinates"@), list);
    }
}

proof fn lemma_collection_keeps_keys(g: Geo, coordinates: Option<json::Json>, geometries: json::Json)
    ensures
        collection_added(g, coordinates, geometries).keys == g.keys,
        collection_added(g, coordinates, geometries).counts.property_key_bytes == g.counts.property_key_bytes,
    decreases geometries, 0int,
{
    if let json::Json::Array(items) = geometries {
        lemma_geometries_keep_keys(g.with_coordinates(coordinates).with_geometry_structure(true), items);
    }
}

proof fn lemma_geometries_keep_keys(g: Geo, items: Seq<json::Json>)
    ensures
        geometries_added(g, items).keys == g.keys,
        geometries_added(g, items).counts.property_key_bytes == g.counts.property_key_bytes,
    decreases items, 0int,
{
    if items.len() > 0 {
        lemma_geometries_keep_keys(g, items.drop_last());
        lemma_geometry_keeps_keys(geometries_added(g, items.drop_last()), items[items.len() - 1], false);
    }
}

} // verus!
