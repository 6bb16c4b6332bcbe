//! Page parsing for the world-clock site: walking a markup tree, pairing
//! the two fragments that share a numeric id, reading the relative time
//! text, and inferring each city's UTC offset from it.

use vstd::prelude::*;

use chrono::{Datelike, Timelike};

use crate::text::{
    matches_ci, parse_i32, parse_i32_spec, push_char, split_char_spec, split_str, split_ws,
    split_ws_spec, str_matches_ci, str_views,
};
use crate::time_and_date_data::{
    city_insert_spec, contains_name, lemma_insert_keeps_name, uri_host_of, uri_scheme_of,
    CityData, CityTimes, CityView, DayOfWeek, Sort, TimeData, UriWrapper, UtcOffset,
};

verus! {

/// The pieces of the current UTC instant the offset inference reads.
#[derive(Clone, Copy, PartialEq, Eq, Structural, Debug)]
pub struct UtcInstant {
    pub weekday: DayOfWeek,
    pub hour: u32,
    pub minute: u32,
}

impl UtcInstant {
    pub open spec fn wf(self) -> bool {
        self.hour < 24 && self.minute < 60
    }
}

/// The inferred offset, in seconds, of a city whose clock shows
/// `(city_day, city_hour, city_minute)` while UTC shows `utc`. Three
/// disjoint cases by weekday relation: same day, city one day behind,
/// and city ahead; each branch mirrors the published inference rule,
/// including the borrow adjustments at hour boundaries.
pub open spec fn offset_seconds_spec(
    city_day: DayOfWeek,
    city_hour: int,
    city_minute: int,
    utc: UtcInstant,
) -> int {
    let uh = utc.hour as int;
    let um = utc.minute as int;
    if city_day == utc.weekday {
        let h = city_hour - uh;
        let m = city_minute - um;
        if h < 0 && m > 0 {
            -(3600 * (h + 1) + 60 * (60 - m))
        } else if h == 0 && m < 0 {
            -(60 * -m)
        } else {
            3600 * h + 60 * m
        }
    } else if city_day.succ_spec() == utc.weekday {
        let h = uh + 24 - city_hour;
        let m = city_minute - um;
        if m > 0 {
            -(3600 * (h - 1) + 60 * (60 - m))
        } else {
            -(3600 * h + 60 * -m)
        }
    } else {
        let h = city_hour + 24 - uh;
        let m = city_minute - um;
        if m < 0 {
            3600 * (h - 1) + 60 * (m + 60)
        } else {
            3600 * h + 60 * m
        }
    }
}

/// Infers a city's signed UTC offset from its local weekday, hour and
/// minute and the current UTC instant. Total over its domain: every
/// input yields exactly the offset of `offset_seconds_spec`.
pub fn city_utc_offset(city: &(DayOfWeek, i32, i32), utc: &UtcInstant) -> (r: UtcOffset)
    requires
        utc.wf(),
        0 <= city.1 <= 23,
        0 <= city.2 <= 59,
    ensures
        r.seconds == offset_seconds_spec(city.0, city.1 as int, city.2 as int, *utc),
        -180000 < r.seconds < 180000,
{
    let (city_day, city_hour, city_minute) = *city;
    let uh: i32 = utc.hour as i32;
    let um: i32 = utc.minute as i32;
    if city_day == utc.weekday {
        let h: i32 = city_hour - uh;
        let m: i32 = city_minute - um;
        if h < 0 && m > 0 {
            UtcOffset::from_seconds(-(3600 * (h + 1) + 60 * (60 - m)))
        } else if h == 0 && m < 0 {
            UtcOffset::from_seconds(-(60 * -m))
        } else {
            UtcOffset::from_seconds(3600 * h + 60 * m)
        }
    } else if city_day.succ() == utc.weekday {
        let h: i32 = uh + 24 - city_hour;
        let m: i32 = city_minute - um;
        if m > 0 {
            UtcOffset::from_seconds(-(3600 * (h - 1) + 60 * (60 - m)))
        } else {
            UtcOffset::from_seconds(-(3600 * h + 60 * -m))
        }
    } else {
        let h: i32 = city_hour + 24 - uh;
        let m: i32 = city_minute - um;
        if m < 0 {
            UtcOffset::from_seconds(3600 * (h - 1) + 60 * (m + 60))
        } else {
            UtcOffset::from_seconds(3600 * h + 60 * m)
        }
    }
}

/// The view of the relative-time parser. A time text such as
/// `Thu 9:05 pm` yields its weekday, 24-hour hour, and minute; a text
/// without three tokens, without an hour/minute pair, or with an hour or
/// minute out of range yields nothing.
pub open spec fn parse_time_spec(s: Seq<char>) -> Option<(DayOfWeek, int, int)> {
    let tokens = split_ws_spec(s);
    if tokens.len() < 3 {
        None
    } else {
        let parts = split_char_spec(tokens[1], ':');
        if parts.len() < 2 {
            None
        } else {
            match (parse_i32_spec(parts[0]), parse_i32_spec(parts[1])) {
                (Some(h), Some(m)) => {
                    if h < 0 || m < 0 || m > 59 {
                        None
                    } else {
                        let hh = if matches_ci(tokens[2], "PM"@) {
                            h % 12 + 12
                        } else {
                            h % 12
                        };
                        Some((DayOfWeek::from_str_spec(tokens[0]), hh, m))
                    }
                },
                _ => None,
            }
        }
    }
}

/// Parses a relative-time text into weekday, hour (24-hour clock, noon
/// and midnight folded by the am/pm marker) and minute.
pub fn parse_city_time_string(time: &String) -> (r: Option<(DayOfWeek, i32, i32)>)
    ensures
        match r {
            Some(t) => parse_time_spec(time@) == Some((t.0, t.1 as int, t.2 as int)),
            None => parse_time_spec(time@) is None,
        },
        r matches Some(t) ==> 0 <= t.1 <= 23 && 0 <= t.2 <= 59,
{
    let tokens = split_ws(time.as_str());
    if tokens.len() < 3 {
        return None;
    }
    proof {
        assert(str_views(tokens@)[0] == tokens@[0]@);
        assert(str_views(tokens@)[1] == tokens@[1]@);
        assert(str_views(tokens@)[2] == tokens@[2]@);
    }
    let parts = split_str(tokens[1].as_str(), ':');
    if parts.len() < 2 {
        return None;
    }
    proof {
        assert(str_views(parts@)[0] == parts@[0]@);
        assert(str_views(parts@)[1] == parts@[1]@);
    }
    let h = match parse_i32(parts[0].as_str()) {
        Some(v) => v,
        None => {
            return None;
        },
    };
    let m = match parse_i32(parts[1].as_str()) {
        Some(v) => v,
        None => {
            return None;
        },
    };
    if h < 0 || m < 0 || m > 59 {
        return None;
    }
    let day = DayOfWeek::from(tokens[0].as_str());
    let mut hh: i32 = h % 12;
    if str_matches_ci(tokens[2].as_str(), "PM") {
        hh = hh + 12;
    }
    Some((day, hh, m))
}

/// One attribute of a markup element.
#[derive(Clone, Debug)]
pub struct MarkupAttr {
    pub name: String,
    pub value: String,
}

/// A parsed markup tree, reduced to what the extractor reads: element
/// tag names, attributes and children, and text content. Anything else
/// (comments, doctypes, processing instructions) carries no data here.
#[derive(Debug)]
pub enum MarkupNode {
    Element { name: String, attrs: Vec<MarkupAttr>, children: Vec<MarkupNode> },
    Text { content: String },
    Other,
}

/// A text with every `.` removed.
pub open spec fn remove_dots(s: Seq<char>) -> Seq<char>
    decreases s.len(),
{
    if s.len() == 0 {
        Seq::<char>::empty()
    } else {
        let rest = remove_dots(s.drop_last());
        if s.last() == '.' {
            rest
        } else {
            rest.push(s.last())
        }
    }
}

/// What one direct child contributes to an element's flattened text:
/// its text content, dots removed; nothing unless it is a text node.
pub open spec fn flat_piece(n: MarkupNode) -> Seq<char> {
    match n {
        MarkupNode::Text { content } => remove_dots(content@),
        _ => Seq::<char>::empty(),
    }
}

/// The flattened text of an element: its direct children's text nodes
/// concatenated, `.` characters removed, no recursion into grandchildren.
pub open spec fn flat_text_spec(children: Seq<MarkupNode>) -> Seq<char>
    decreases children.len(),
{
    if children.len() == 0 {
        Seq::<char>::empty()
    } else {
        flat_text_spec(children.drop_last()) + flat_piece(children.last())
    }
}

/// Flattens an element's direct children into one text.
pub fn get_children_as_flat_string(children: &Vec<MarkupNode>) -> (r: String)
    ensures
        r@ == flat_text_spec(children@),
{
    let mut r = String::new();
    proof {
        assert(children@.subrange(0, 0) =~= Seq::<MarkupNode>::empty());
        assert(r@ =~= flat_text_spec(children@.subrange(0, 0)));
    }
    let n: usize = children.len();
    let mut i: usize = 0;
    while i < n
        invariant
            i <= n,
            n == children@.len(),
            r@ == flat_text_spec(children@.subrange(0, i as int)),
        decreases n - i,
    {
        proof {
            assert(children@.subrange(0, i + 1).drop_last() =~= children@.subrange(0, i as int));
            assert(children@.subrange(0, i + 1).last() == children@[i as int]);
        }
        match &children[i] {
            MarkupNode::Text { content } => {
                let clen: usize = content.as_str().unicode_len();
                let ghost base = r@;
                let mut j: usize = 0;
                while j < clen
                    invariant
                        j <= clen,
                        clen == content@.len(),
                        r@ == base + remove_dots(content@.subrange(0, j as int)),
                    decreases clen - j,
                {
                    proof {
                        assert(content@.subrange(0, j + 1).drop_last() =~= content@.subrange(
                            0,
                            j as int,
                        ));
                        assert(content@.subrange(0, j + 1).last() == content@[j as int]);
                    }
                    let c = content.as_str().get_char(j);
                    if c != '.' {
                        push_char(&mut r, c);
                    }
                    j = j + 1;
                }
                proof {
                    assert(content@.subrange(0, clen as int) =~= content@);
                    assert(r@ =~= flat_text_spec(children@.subrange(0, i + 1)));
                }
            },
            _ => {
                proof {
                    assert(r@ =~= flat_text_spec(children@.subrange(0, i + 1)));
                }
            },
        }
        i = i + 1;
    }
    proof {
        assert(children@.subrange(0, n as int) =~= children@);
    }
    r
}

/// The value of the first attribute called `name`, if any.
pub open spec fn attr_lookup(attrs: Seq<MarkupAttr>, name: Seq<char>) -> Option<Seq<char>>
    decreases attrs.len(),
{
    if attrs.len() == 0 {
        None
    } else if attrs.first().name@ == name {
        Some(attrs.first().value@)
    } else {
        attr_lookup(attrs.drop_first(), name)
    }
}

/// Looks an attribute up by name.
pub fn get_attribute(attrs: &Vec<MarkupAttr>, name: &str) -> (r: Option<String>)
    ensures
        match r {
            Some(v) => attr_lookup(attrs@, name@) == Some(v@),
            None => attr_lookup(attrs@, name@) is None,
        },
{
    let n: usize = attrs.len();
    proof {
        assert(attrs@.subrange(0, n as int) =~= attrs@);
    }
    let mut i: usize = 0;
    while i < n
        invariant
            i <= n,
            n == attrs@.len(),
            attr_lookup(attrs@, name@) == attr_lookup(attrs@.subrange(i as int, n as int), name@),
        decreases n - i,
    {
        proof {
            assert(attrs@.subrange(i as int, n as int).first() == attrs@[i as int]);
            assert(attrs@.subrange(i as int, n as int).drop_first() =~= attrs@.subrange(
                i + 1,
                n as int,
            ));
        }
        if crate::text::str_eq(attrs[i].name.as_str(), name) {
            return Some(attrs[i].value.clone());
        }
        i = i + 1;
    }
    proof {
        assert(attrs@.subrange(n as int, n as int) =~= Seq::<MarkupAttr>::empty());
    }
    None
}

/// A value with its leading `p` characters removed.
pub open spec fn strip_leading_p(s: Seq<char>) -> Seq<char>
    decreases s.len(),
{
    if s.len() > 0 && s.first() == 'p' {
        strip_leading_p(s.drop_first())
    } else {
        s
    }
}

/// A value with its trailing `s` characters removed.
pub open spec fn strip_trailing_s(s: Seq<char>) -> Seq<char>
    decreases s.len(),
{
    if s.len() > 0 && s.last() == 's' {
        strip_trailing_s(s.drop_last())
    } else {
        s
    }
}

/// The correlation id an element carries: its `id` attribute, normalized
/// by stripping a leading `p` and a trailing `s`, parsed as an integer.
pub open spec fn city_id_spec(attrs: Seq<MarkupAttr>) -> Option<int> {
    match attr_lookup(attrs, "id"@) {
        Some(v) => parse_i32_spec(strip_trailing_s(strip_leading_p(v))),
        None => None,
    }
}

/// Reads an element's correlation id, if it carries a parseable one.
pub fn get_city_id(attrs: &Vec<MarkupAttr>) -> (r: Option<i32>)
    ensures
        match r {
            Some(v) => city_id_spec(attrs@) == Some(v as int),
            None => city_id_spec(attrs@) is None,
        },
{
    let id_attr = match get_attribute(attrs, "id") {
        Some(v) => v,
        None => {
            return None;
        },
    };
    let s = id_attr.as_str();
    let n: usize = s.unicode_len();
    let mut start: usize = 0;
    proof {
        assert(s@.subrange(0, n as int) =~= s@);
    }
    while start < n && s.get_char(start) == 'p'
        invariant
            start <= n,
            n == s@.len(),
            strip_leading_p(s@) == strip_leading_p(s@.subrange(start as int, n as int)),
        decreases n - start,
    {
        proof {
            assert(s@.subrange(start as int, n as int).drop_first() =~= s@.subrange(
                start + 1,
                n as int,
            ));
        }
        start = start + 1;
    }
    proof {
        assert(strip_leading_p(s@) == s@.subrange(start as int, n as int));
    }
    let mut end: usize = n;
    while end > start && s.get_char(end - 1) == 's'
        invariant
            start <= end <= n,
            n == s@.len(),
            strip_trailing_s(s@.subrange(start as int, n as int)) == strip_trailing_s(
                s@.subrange(start as int, end as int),
            ),
        decreases end,
    {
        proof {
            assert(s@.subrange(start as int, end as int).drop_last() =~= s@.subrange(
                start as int,
                end - 1,
            ));
        }
        end = end - 1;
    }
    proof {
        assert(strip_trailing_s(s@.subrange(start as int, end as int)) == s@.subrange(
            start as int,
            end as int,
        ));
    }
    let core = s.substring_char(start, end);
    parse_i32(core)
}

/// A pending record after its time fragment arrived: when the time text
/// is long enough to carry a weekday and parses, the offset is inferred
/// from it; otherwise the record is left as it was.
pub open spec fn update_city_view(cd: CityView, utc: UtcInstant) -> CityView {
    if cd.time_string.len() > 2 {
        match parse_time_spec(cd.time_string) {
            Some(t) => CityView { offset_seconds: offset_seconds_spec(t.0, t.1, t.2, utc), ..cd },
            None => cd,
        }
    } else {
        cd
    }
}

/// Re-infers a record's UTC offset from its relative-time text.
pub fn update_city_data(city_data: &mut CityData, utc: &UtcInstant)
    requires
        utc.wf(),
    ensures
        final(city_data)@ == update_city_view(old(city_data)@, *utc),
{
    if city_data.time_string.as_str().unicode_len() > 2 {
        match parse_city_time_string(&city_data.time_string) {
            Some((d, h, m)) => {
                city_data.utc_offset = city_utc_offset(&(d, h, m), utc);
            },
            None => {},
        }
    }
}

/// What visiting one node does to the result set and the pending record.
/// An anchor overwrites the pending name, and its link resolved against
/// the page's scheme and host overwrites the pending url (skipped when the
/// link or the page context is missing). An element carrying a fresh
/// correlation id starts a new pending record: the id is taken and the
/// daylight-saving flag read from the fragment's text. An element whose
/// id matches the pending one completes it: the fragment's text becomes
/// the time text, the offset is inferred from it, and the record is
/// inserted into the result set.
pub open spec fn process_element_spec(
    node: MarkupNode,
    page: UriWrapper,
    cities: Seq<CityView>,
    cd: CityView,
    utc: UtcInstant,
) -> (Seq<CityView>, CityView) {
    match node {
        MarkupNode::Element { name, attrs, children } => {
            if name@ == "a"@ {
                let url = if page.has_page_context() {
                    match attr_lookup(attrs@, "href"@) {
                        Some(h) => page.scheme@ + "://"@ + page.host@ + h,
                        None => cd.url,
                    }
                } else {
                    cd.url
                };
                (cities, CityView { name: flat_text_spec(children@), url, ..cd })
            } else {
                match city_id_spec(attrs@) {
                    Some(id) => {
                        if id == cd.id {
                            let done = update_city_view(
                                CityView { time_string: flat_text_spec(children@), ..cd },
                                utc,
                            );
                            (city_insert_spec(cities, done), done)
                        } else {
                            (
                                cities,
                                CityView {
                                    id,
                                    is_dls: flat_text_spec(children@).contains('*'),
                                    ..cd
                                },
                            )
                        }
                    },
                    None => (cities, cd),
                }
            }
        },
        _ => (cities, cd),
    }
}

/// Visits one node, updating the page dataset and the pending record.
pub fn process_element(
    node: &MarkupNode,
    time_data: &mut TimeData,
    city_data: &mut CityData,
    utc: &UtcInstant,
)
    requires
        utc.wf(),
        old(time_data).wf(),
        old(city_data)@.wf(),
    ensures
        ({
            let r = process_element_spec(
                *node,
                old(time_data).page_uri,
                old(time_data).city_times@,
                old(city_data)@,
                *utc,
            );
            final(time_data).city_times@ == r.0 && final(city_data)@ == r.1
        }),
        final(time_data).page_uri == old(time_data).page_uri,
        final(time_data).last_updated == old(time_data).last_updated,
        final(time_data).wf(),
        final(city_data)@.wf(),
{
    match node {
        MarkupNode::Element { name, attrs, children } => {
            if crate::text::str_eq(name.as_str(), "a") {
                city_data.name = get_children_as_flat_string(children);
                let has_context = !time_data.page_uri.scheme.as_str().is_empty()
                    && !time_data.page_uri.host.as_str().is_empty();
                if has_context {
                    match get_attribute(attrs, "href") {
                        Some(href) => {
                            let mut url = String::new();
                            url.append(time_data.page_uri.scheme.as_str());
                            url.append("://");
                            url.append(time_data.page_uri.host.as_str());
                            url.append(href.as_str());
                            proof {
                                assert(url@ =~= time_data.page_uri.scheme@ + "://"@
                                    + time_data.page_uri.host@ + href@);
                            }
                            city_data.url = url;
                        },
                        None => {},
                    }
                }
            } else {
                match get_city_id(attrs) {
                    Some(id) => {
                        if id == city_data.id {
                            city_data.time_string = get_children_as_flat_string(children);
                            update_city_data(city_data, utc);
                            time_data.city_times.insert(city_data.clone_record());
                        } else {
                            city_data.id = id;
                            let flat = get_children_as_flat_string(children);
                            city_data.is_dls = contains_star(&flat);
                        }
                    },
                    None => {},
                }
            }
        },
        _ => {},
    }
}

/// Whether a text contains an asterisk, the daylight-saving marker.
fn contains_star(s: &String) -> (r: bool)
    ensures
        r == s@.contains('*'),
{
    let n: usize = s.as_str().unicode_len();
    let mut i: usize = 0;
    while i < n
        invariant
            i <= n,
            n == s@.len(),
            forall|j: int| 0 <= j < i ==> s@[j] != '*',
        decreases n - i,
    {
        if s.as_str().get_char(i) == '*' {
            proof {
                assert(s@[i as int] == '*');
            }
            return true;
        }
        i = i + 1;
    }
    proof {
        assert(!s@.contains('*'));
    }
    false
}

impl CityData {
    /// A field-for-field copy; the derived clone of a record carries no
    /// contract, so the record set is fed through this one.
    pub fn clone_record(&self) -> (r: CityData)
        ensures
            r@ == self@,
    {
        CityData {
            id: self.id,
            name: self.name.clone(),
            time_string: self.time_string.clone(),
            utc_offset: self.utc_offset,
            is_dls: self.is_dls,
            url: self.url.clone(),
            sort: self.sort,
        }
    }
}

/// The children a traversal descends into.
pub open spec fn children_of(node: MarkupNode) -> Seq<MarkupNode> {
    match node {
        MarkupNode::Element { children, .. } => children@,
        _ => Seq::<MarkupNode>::empty(),
    }
}

/// A pre-order visit of one node and everything below it.
pub open spec fn walk_node_spec(
    node: MarkupNode,
    page: UriWrapper,
    cities: Seq<CityView>,
    cd: CityView,
    utc: UtcInstant,
) -> (Seq<CityView>, CityView)
    decreases node,
{
    let r = process_element_spec(node, page, cities, cd, utc);
    match node {
        MarkupNode::Element { children, .. } => walk_list_spec(children@, page, r.0, r.1, utc),
        _ => r,
    }
}

/// A pre-order visit of a node list, threading the result set and the
/// pending record through every visit.
pub open spec fn walk_list_spec(
    nodes: Seq<MarkupNode>,
    page: UriWrapper,
    cities: Seq<CityView>,
    cd: CityView,
    utc: UtcInstant,
) -> (Seq<CityView>, CityView)
    decreases nodes,
{
    if nodes.len() == 0 {
        (cities, cd)
    } else {
        let r = walk_node_spec(nodes.first(), page, cities, cd, utc);
        walk_list_spec(nodes.drop_first(), page, r.0, r.1, utc)
    }
}

/// Walks a node list in document order, visiting every descendant
/// whatever its depth, with one mutable pending record correlating the
/// fragment pairs it meets along the way.
pub fn parse_node(
    nodes: &Vec<MarkupNode>,
    time_data: &mut TimeData,
    city_data: &mut CityData,
    utc: &UtcInstant,
)
    requires
        utc.wf(),
        old(time_data).wf(),
        old(city_data)@.wf(),
    ensures
        ({
            let r = walk_list_spec(
                nodes@,
                old(time_data).page_uri,
                old(time_data).city_times@,
                old(city_data)@,
                *utc,
            );
            final(time_data).city_times@ == r.0 && final(city_data)@ == r.1
        }),
        final(time_data).page_uri == old(time_data).page_uri,
        final(time_data).last_updated == old(time_data).last_updated,
        final(time_data).wf(),
        final(city_data)@.wf(),
    decreases nodes@,
{
    let n: usize = nodes.len();
    let ghost page0 = old(time_data).page_uri;
    let ghost cities0 = old(time_data).city_times@;
    let ghost cd0 = old(city_data)@;
    let ghost total = walk_list_spec(nodes@, page0, cities0, cd0, *utc);
    let mut i: usize = 0;
    proof {
        assert(nodes@.subrange(0, n as int) =~= nodes@);
    }
    while i < n
        invariant
            i <= n,
            n == nodes@.len(),
            utc.wf(),
            time_data.wf(),
            city_data@.wf(),
            time_data.page_uri == page0,
            time_data.last_updated == old(time_data).last_updated,
            total == walk_list_spec(nodes@, page0, cities0, cd0, *utc),
            walk_list_spec(
                nodes@.subrange(i as int, n as int),
                page0,
                time_data.city_times@,
                city_data@,
                *utc,
            ) == total,
        decreases n - i,
    {
        let ghost rest = nodes@.subrange(i as int, n as int);
        let ghost cities_in = time_data.city_times@;
        let ghost cd_in = city_data@;
        proof {
            assert(rest.first() == nodes@[i as int]);
            assert(rest.drop_first() =~= nodes@.subrange(i + 1, n as int));
        }
        let node = &nodes[i];
        process_element(node, time_data, city_data, utc);
        let ghost r1 = process_element_spec(nodes@[i as int], page0, cities_in, cd_in, *utc);
        match node {
            MarkupNode::Element { children, .. } => {
                proof {
                    assert(decreases_to!(nodes@ => nodes@[i as int]));
                }
                parse_node(children, time_data, city_data, utc);
            },
            _ => {},
        }
        proof {
            assert(walk_node_spec(nodes@[i as int], page0, cities_in, cd_in, *utc) == (
                time_data.city_times@,
                city_data@,
            ));
            assert(walk_list_spec(rest, page0, cities_in, cd_in, *utc) == walk_list_spec(
                nodes@.subrange(i + 1, n as int),
                page0,
                time_data.city_times@,
                city_data@,
                *utc,
            ));
        }
        i = i + 1;
    }
    proof {
        assert(nodes@.subrange(n as int, n as int) =~= Seq::<MarkupNode>::empty());
    }
}

/// A traversal only ever adds records: a name present in the result set
/// before a visit is still present after it.
proof fn lemma_walk_node_keeps_name(
    node: MarkupNode,
    page: UriWrapper,
    cities: Seq<CityView>,
    cd: CityView,
    utc: UtcInstant,
    nm: Seq<char>,
)
    requires
        contains_name(cities, nm),
    ensures
        contains_name(walk_node_spec(node, page, cities, cd, utc).0, nm),
    decreases node,
{
    let r = process_element_spec(node, page, cities, cd, utc);
    assert(contains_name(r.0, nm)) by {
        match node {
            MarkupNode::Element { name, attrs, children } => {
                if name@ != "a"@ {
                    match city_id_spec(attrs@) {
                        Some(id) => {
                            if id == cd.id {
                                let done = update_city_view(
                                    CityView { time_string: flat_text_spec(children@), ..cd },
                                    utc,
                                );
                                lemma_insert_keeps_name(cities, done, nm);
                            }
                        },
                        None => {},
                    }
                }
            },
            _ => {},
        }
    }
    match node {
        MarkupNode::Element { children, .. } => {
            lemma_walk_list_keeps_name(children@, page, r.0, r.1, utc, nm);
        },
        _ => {},
    }
}

/// As `lemma_walk_node_keeps_name`, over a node list.
proof fn lemma_walk_list_keeps_name(
    nodes: Seq<MarkupNode>,
    page: UriWrapper,
    cities: Seq<CityView>,
    cd: CityView,
    utc: UtcInstant,
    nm: Seq<char>,
)
    requires
        contains_name(cities, nm),
    ensures
        contains_name(walk_list_spec(nodes, page, cities, cd, utc).0, nm),
    decreases nodes,
{
    if nodes.len() > 0 {
        let r = walk_node_spec(nodes.first(), page, cities, cd, utc);
        lemma_walk_node_keeps_name(nodes.first(), page, cities, cd, utc, nm);
        lemma_walk_list_keeps_name(nodes.drop_first(), page, r.0, r.1, utc, nm);
    }
}

/// The local weekday, hour and minute a clock `offset_minutes` ahead of
/// UTC shows at the instant `utc`.
pub open spec fn local_of(utc: UtcInstant, offset_minutes: int) -> (DayOfWeek, int, int) {
    let t = utc.hour * 60 + utc.minute + offset_minutes;
    if t < 0 {
        (utc.weekday.pred_spec(), (t + 1440) / 60, (t + 1440) % 60)
    } else if t >= 1440 {
        (utc.weekday.succ_spec(), (t - 1440) / 60, (t - 1440) % 60)
    } else {
        (utc.weekday, t / 60, t % 60)
    }
}

/// Where the round trip is defined. The same-day borrow rule adjusts
/// only one hour, so a same-day clock more than one full hour behind
/// UTC with spare minutes is left out.
pub open spec fn round_trip_defined(utc: UtcInstant, offset_minutes: int) -> bool {
    let l = local_of(utc, offset_minutes);
    !(l.0 == utc.weekday && l.1 - utc.hour <= -2 && l.2 - utc.minute >= 1)
}

/// Round trip of the offset inference: a city clock constructed to sit a
/// known number of minutes away from UTC resolves back to exactly that
/// offset, to the minute, wherever the round trip is defined.
pub proof fn lemma_offset_round_trip(utc: UtcInstant, offset_minutes: int)
    requires
        utc.wf(),
        -1440 < offset_minutes < 1440,
        round_trip_defined(utc, offset_minutes),
    ensures
        ({
            let l = local_of(utc, offset_minutes);
            offset_seconds_spec(l.0, l.1, l.2, utc) == 60 * offset_minutes
        }),
{
    let uh = utc.hour as int;
    let um = utc.minute as int;
    let tu = uh * 60 + um;
    let t = tu + offset_minutes;
    let l = local_of(utc, offset_minutes);
    if t < 0 {
        let t1 = t + 1440;
        vstd::arithmetic::div_mod::lemma_fundamental_div_mod(t1, 60);
        assert(l.0.succ_spec() == utc.weekday);
        assert(l.0 != utc.weekday);
        assert(60 * l.1 + l.2 == t1);
        assert(0 <= l.2 < 60) by {
            vstd::arithmetic::div_mod::lemma_mod_bound(t1, 60);
        }
    } else if t >= 1440 {
        let t1 = t - 1440;
        vstd::arithmetic::div_mod::lemma_fundamental_div_mod(t1, 60);
        assert(l.0 != utc.weekday);
        assert(l.0.succ_spec() != utc.weekday);
        assert(60 * l.1 + l.2 == t1);
        assert(0 <= l.2 < 60) by {
            vstd::arithmetic::div_mod::lemma_mod_bound(t1, 60);
        }
    } else {
        vstd::arithmetic::div_mod::lemma_fundamental_div_mod(t, 60);
        assert(60 * l.1 + l.2 == t);
        assert(0 <= l.2 < 60) by {
            vstd::arithmetic::div_mod::lemma_mod_bound(t, 60);
        }
    }
}

/// A fresh dataset for one page: the page URI reduced to its parts, no
/// records yet, no persistence timestamp yet.
pub fn create_time_data(url: &str) -> (r: TimeData)
    ensures
        r.page_uri.text@ == url@,
        r.page_uri.scheme@ == (match uri_scheme_of(url@) {
            Some(x) => x,
            None => Seq::<char>::empty(),
        }),
        r.page_uri.host@ == (match uri_host_of(url@) {
            Some(x) => x,
            None => Seq::<char>::empty(),
        }),
        r.city_times@ == Seq::<CityView>::empty(),
        r.last_updated@ == Seq::<char>::empty(),
        r.wf(),
{
    TimeData {
        page_uri: UriWrapper::new(url),
        city_times: CityTimes::new(),
        last_updated: String::new(),
    }
}

/// The synthetic record standing for UTC itself: offset zero, a fixed
/// name and link, the sentinel id.
pub open spec fn utc_record_spec(sort: Sort) -> CityView {
    CityView {
        id: -1,
        name: "UTC"@,
        time_string: Seq::<char>::empty(),
        offset_seconds: 0,
        is_dls: false,
        url: "https://www.timeanddate.com/time/aboututc.html"@,
        sort,
    }
}

/// The pending record a traversal starts from: everything default but
/// the sentinel id and the sort mode.
pub open spec fn initial_pending_spec(sort: Sort) -> CityView {
    CityView {
        id: -1,
        name: Seq::<char>::empty(),
        time_string: Seq::<char>::empty(),
        offset_seconds: 0,
        is_dls: false,
        url: Seq::<char>::empty(),
        sort,
    }
}

/// Adds the synthetic UTC record to a page dataset.
pub fn add_utc(data: &mut TimeData, sort: Sort)
    requires
        old(data).wf(),
    ensures
        final(data).city_times@ == city_insert_spec(old(data).city_times@, utc_record_spec(sort)),
        final(data).page_uri == old(data).page_uri,
        final(data).last_updated == old(data).last_updated,
        final(data).wf(),
{
    let rec = CityData {
        id: -1,
        name: String::from_str("UTC"),
        time_string: String::new(),
        utc_offset: UtcOffset::from_seconds(0),
        is_dls: false,
        url: String::from_str("https://www.timeanddate.com/time/aboututc.html"),
        sort,
    };
    proof {
        assert(rec@ == utc_record_spec(sort));
    }
    data.city_times.insert(rec);
}

/// Builds one page's dataset from its parsed markup tree: the synthetic
/// UTC record plus whatever the traversal extracts, offsets inferred
/// against the given UTC instant.
pub fn extract_time_data(url: &str, nodes: &Vec<MarkupNode>, sort: Sort, utc: &UtcInstant) -> (r:
    TimeData)
    requires
        utc.wf(),
    ensures
        r.page_uri.text@ == url@,
        r.page_uri.scheme@ == (match uri_scheme_of(url@) {
            Some(x) => x,
            None => Seq::<char>::empty(),
        }),
        r.page_uri.host@ == (match uri_host_of(url@) {
            Some(x) => x,
            None => Seq::<char>::empty(),
        }),
        r.last_updated@ == Seq::<char>::empty(),
        r.city_times@ == walk_list_spec(
            nodes@,
            r.page_uri,
            city_insert_spec(Seq::<CityView>::empty(), utc_record_spec(sort)),
            initial_pending_spec(sort),
            *utc,
        ).0,
        contains_name(r.city_times@, "UTC"@),
        r.wf(),
{
    let mut data = create_time_data(url);
    add_utc(&mut data, sort);
    let mut pending = CityData {
        id: -1,
        name: String::new(),
        time_string: String::new(),
        utc_offset: UtcOffset::from_seconds(0),
        is_dls: false,
        url: String::new(),
        sort,
    };
    proof {
        assert(pending@ == initial_pending_spec(sort));
        let start = city_insert_spec(Seq::<CityView>::empty(), utc_record_spec(sort));
        assert(start == data.city_times@);
        assert(start[0] == utc_record_spec(sort));
        assert(contains_name(start, "UTC"@));
    }
    parse_node(nodes, &mut data, &mut pending, utc);
    proof {
        lemma_walk_list_keeps_name(
            nodes@,
            data.page_uri,
            city_insert_spec(Seq::<CityView>::empty(), utc_record_spec(sort)),
            initial_pending_spec(sort),
            *utc,
            "UTC"@,
        );
    }
    data
}

/// Relies on chrono's `Utc::now` with its `Datelike`/`Timelike` accessors
/// and `DateTime::timestamp`: the hour is 0 to 23 and the minute 0 to 59;
/// the second value is the same instant as a Unix timestamp in seconds.
#[verifier::external_body]
pub(crate) fn utc_now() -> (r: (UtcInstant, i64))
    ensures
        r.0.wf(),
{
    let now = chrono::Utc::now();
    let weekday = match now.weekday() {
        chrono::Weekday::Mon => DayOfWeek::Mon,
        chrono::Weekday::Tue => DayOfWeek::Tue,
        chrono::Weekday::Wed => DayOfWeek::Wed,
        chrono::Weekday::Thu => DayOfWeek::Thu,
        chrono::Weekday::Fri => DayOfWeek::Fri,
        chrono::Weekday::Sat => DayOfWeek::Sat,
        chrono::Weekday::Sun => DayOfWeek::Sun,
    };
    (UtcInstant { weekday, hour: now.hour(), minute: now.minute() }, now.timestamp())
}

/// Builds one page's dataset against the UTC instant the clock shows at
/// the moment of the call: whatever instant that is, the result is the
/// extraction of `extract_time_data` for it.
pub fn extract_time_data_now(url: &str, nodes: &Vec<MarkupNode>, sort: Sort) -> (r: TimeData)
    ensures
        r.page_uri.text@ == url@,
        r.page_uri.scheme@ == (match uri_scheme_of(url@) {
            Some(x) => x,
            None => Seq::<char>::empty(),
        }),
        r.page_uri.host@ == (match uri_host_of(url@) {
            Some(x) => x,
            None => Seq::<char>::empty(),
        }),
        r.last_updated@ == Seq::<char>::empty(),
        exists|utc: UtcInstant|
            utc.wf() && r.city_times@ == (#[trigger] walk_list_spec(
                nodes@,
                r.page_uri,
                city_insert_spec(Seq::<CityView>::empty(), utc_record_spec(sort)),
                initial_pending_spec(sort),
                utc,
            )).0,
        contains_name(r.city_times@, "UTC"@),
        r.wf(),
{
    let (utc, _now) = utc_now();
    let r = extract_time_data(url, nodes, sort, &utc);
    proof {
        assert(utc.wf() && r.city_times@ == walk_list_spec(
            nodes@,
            r.page_uri,
            city_insert_spec(Seq::<CityView>::empty(), utc_record_spec(sort)),
            initial_pending_spec(sort),
            utc,
        ).0);
    }
    r
}

} // verus!
