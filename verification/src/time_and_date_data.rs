//! The data model: weekdays, UTC offsets, city records, the ordered
//! deduplicated record set, and the page dataset they belong to.

use vstd::prelude::*;

use crate::text::{
    digit_char_spec, digit_to_char, lex_le, lex_lt, lemma_lex_lt_transitive, matches_ci,
    push_char, str_lex_lt, str_matches_ci,
};

verus! {

/// Sort mode for the ordered city-record set: it selects the comparison key,
/// never the identity of a record.
#[derive(Clone, Copy, PartialEq, Eq, Structural, Debug)]
pub enum Sort {
    ByName,
    ByOffset,
}

impl Default for Sort {
    fn default() -> (r: Self)
        ensures
            r == Sort::ByName,
    {
        Sort::ByName
    }
}

#[derive(Clone, Copy, PartialEq, Eq, Structural, Debug)]
pub enum DayOfWeek {
    Mon,
    Tue,
    Wed,
    Thu,
    Fri,
    Sat,
    Sun,
}

impl DayOfWeek {
    /// The next calendar day.
    pub open spec fn succ_spec(self) -> DayOfWeek {
        match self {
            DayOfWeek::Mon => DayOfWeek::Tue,
            DayOfWeek::Tue => DayOfWeek::Wed,
            DayOfWeek::Wed => DayOfWeek::Thu,
            DayOfWeek::Thu => DayOfWeek::Fri,
            DayOfWeek::Fri => DayOfWeek::Sat,
            DayOfWeek::Sat => DayOfWeek::Sun,
            DayOfWeek::Sun => DayOfWeek::Mon,
        }
    }

    /// The previous calendar day.
    pub open spec fn pred_spec(self) -> DayOfWeek {
        match self {
            DayOfWeek::Mon => DayOfWeek::Sun,
            DayOfWeek::Tue => DayOfWeek::Mon,
            DayOfWeek::Wed => DayOfWeek::Tue,
            DayOfWeek::Thu => DayOfWeek::Wed,
            DayOfWeek::Fri => DayOfWeek::Thu,
            DayOfWeek::Sat => DayOfWeek::Fri,
            DayOfWeek::Sun => DayOfWeek::Sat,
        }
    }

    pub fn succ(self) -> (r: DayOfWeek)
        ensures
            r == self.succ_spec(),
    {
        match self {
            DayOfWeek::Mon => DayOfWeek::Tue,
            DayOfWeek::Tue => DayOfWeek::Wed,
            DayOfWeek::Wed => DayOfWeek::Thu,
            DayOfWeek::Thu => DayOfWeek::Fri,
            DayOfWeek::Fri => DayOfWeek::Sat,
            DayOfWeek::Sat => DayOfWeek::Sun,
            DayOfWeek::Sun => DayOfWeek::Mon,
        }
    }

    pub fn get(self) -> (r: DayOfWeek)
        ensures
            r == self,
    {
        self
    }

    /// A three-letter day name, in any ASCII case, names its day;
    /// anything else falls back to Sunday.
    pub open spec fn from_str_spec(s: Seq<char>) -> DayOfWeek {
        if matches_ci(s, "MON"@) {
            DayOfWeek::Mon
        } else if matches_ci(s, "TUE"@) {
            DayOfWeek::Tue
        } else if matches_ci(s, "WED"@) {
            DayOfWeek::Wed
        } else if matches_ci(s, "THU"@) {
            DayOfWeek::Thu
        } else if matches_ci(s, "FRI"@) {
            DayOfWeek::Fri
        } else if matches_ci(s, "SAT"@) {
            DayOfWeek::Sat
        } else {
            DayOfWeek::Sun
        }
    }

    pub fn from(s: &str) -> (r: DayOfWeek)
        ensures
            r == DayOfWeek::from_str_spec(s@),
    {
        if str_matches_ci(s, "MON") {
            DayOfWeek::Mon
        } else if str_matches_ci(s, "TUE") {
            DayOfWeek::Tue
        } else if str_matches_ci(s, "WED") {
            DayOfWeek::Wed
        } else if str_matches_ci(s, "THU") {
            DayOfWeek::Thu
        } else if str_matches_ci(s, "FRI") {
            DayOfWeek::Fri
        } else if str_matches_ci(s, "SAT") {
            DayOfWeek::Sat
        } else {
            DayOfWeek::Sun
        }
    }
}

impl Default for DayOfWeek {
    fn default() -> (r: Self)
        ensures
            r == DayOfWeek::Sun,
    {
        DayOfWeek::Sun
    }
}

/// A signed UTC offset in seconds, displayed as `+hh:mm` / `-hh:mm`.
#[derive(Clone, Copy, PartialEq, Eq, Structural, Debug)]
pub struct UtcOffset {
    pub seconds: i32,
}

/// The display form of an offset of `seconds`: a sign, two hour digits,
/// a colon, and two minute digits.
pub open spec fn offset_display_spec(seconds: int) -> Seq<char> {
    let a = if seconds < 0 {
        -seconds
    } else {
        seconds
    };
    let h = a / 3600;
    let m = (a % 3600) / 60;
    seq![
        if seconds < 0 {
            '-'
        } else {
            '+'
        },
        digit_char_spec(h / 10),
        digit_char_spec(h % 10),
        ':',
        digit_char_spec(m / 10),
        digit_char_spec(m % 10),
    ]
}

impl UtcOffset {
    pub fn from_seconds(seconds: i32) -> (r: UtcOffset)
        ensures
            r.seconds == seconds,
    {
        UtcOffset { seconds }
    }

    pub fn get(&self) -> (r: i32)
        ensures
            r == self.seconds,
    {
        self.seconds
    }

    /// Renders the offset; two digits are enough for every hour count
    /// the resolver can produce.
    pub fn to_display_string(&self) -> (r: String)
        requires
            -360000 < self.seconds < 360000,
        ensures
            r@ == offset_display_spec(self.seconds as int),
    {
        let neg = self.seconds < 0;
        let a: u32 = if neg {
            (-self.seconds) as u32
        } else {
            self.seconds as u32
        };
        let h: u32 = a / 3600;
        let m: u32 = (a % 3600) / 60;
        let mut r = String::new();
        push_char(&mut r, if neg { '-' } else { '+' });
        push_char(&mut r, digit_to_char(h / 10));
        push_char(&mut r, digit_to_char(h % 10));
        push_char(&mut r, ':');
        push_char(&mut r, digit_to_char(m / 10));
        push_char(&mut r, digit_to_char(m % 10));
        proof {
            assert(r@ =~= offset_display_spec(self.seconds as int));
        }
        r
    }
}

/// The offset a `+hh:mm` / `-hh:mm` text denotes: the inverse of the
/// display form, rejecting anything of another shape.
pub open spec fn offset_parse_spec(s: Seq<char>) -> Option<int> {
    if s.len() == 6 && (s[0] == '+' || s[0] == '-') && s[3] == ':' && crate::text::is_digit(s[1])
        && crate::text::is_digit(s[2]) && crate::text::is_digit(s[4]) && crate::text::is_digit(
        s[5],
    ) && crate::text::digit_val(s[4]) <= 5 {
        let v = 3600 * (10 * crate::text::digit_val(s[1]) + crate::text::digit_val(s[2])) + 60 * (10
            * crate::text::digit_val(s[4]) + crate::text::digit_val(s[5]));
        Some(
            if s[0] == '-' {
                -v
            } else {
                v
            },
        )
    } else {
        None
    }
}

impl UtcOffset {
    /// Reads an offset back from its display form.
    pub fn from_display_string(s: &str) -> (r: Option<UtcOffset>)
        ensures
            match r {
                Some(o) => offset_parse_spec(s@) == Some(o.seconds as int),
                None => offset_parse_spec(s@) is None,
            },
    {
        let n: usize = s.unicode_len();
        if n != 6 {
            return None;
        }
        let sign = s.get_char(0);
        if !(sign == '+' || sign == '-') {
            return None;
        }
        if s.get_char(3) != ':' {
            return None;
        }
        let h1 = s.get_char(1) as u32;
        let h2 = s.get_char(2) as u32;
        let m1 = s.get_char(4) as u32;
        let m2 = s.get_char(5) as u32;
        if !(48 <= h1 && h1 <= 57 && 48 <= h2 && h2 <= 57 && 48 <= m1 && m1 <= 57 && 48 <= m2
            && m2 <= 57) {
            return None;
        }
        if m1 - 48 > 5 {
            return None;
        }
        let v: i32 = 3600 * (10 * (h1 - 48) + (h2 - 48)) as i32 + 60 * (10 * (m1 - 48) + (m2
            - 48)) as i32;
        if sign == '-' {
            Some(UtcOffset { seconds: -v })
        } else {
            Some(UtcOffset { seconds: v })
        }
    }
}

impl Default for UtcOffset {
    fn default() -> (r: Self)
        ensures
            r.seconds == 0,
    {
        UtcOffset { seconds: 0 }
    }
}

/// One extracted city: correlation id, display name, detail link, the raw
/// relative-time text, the inferred offset, and a daylight-saving marker.
#[derive(Clone, Debug)]
pub struct CityData {
    pub id: i32,
    pub name: String,
    pub time_string: String,
    pub utc_offset: UtcOffset,
    pub is_dls: bool,
    pub url: String,
    pub sort: Sort,
}

/// The ordering key under a sort mode: name and offset display joined by
/// `-`, in the order the mode dictates.
pub open spec fn record_key_spec(sort: Sort, name: Seq<char>, offset_seconds: int) -> Seq<char> {
    match sort {
        Sort::ByName => name + seq!['-'] + offset_display_spec(offset_seconds),
        Sort::ByOffset => offset_display_spec(offset_seconds) + seq!['-'] + name,
    }
}

/// The mathematical content of a record: the same fields over `Seq` and
/// `int`, the currency of every contract about record sets.
pub struct CityView {
    pub id: int,
    pub name: Seq<char>,
    pub time_string: Seq<char>,
    pub offset_seconds: int,
    pub is_dls: bool,
    pub url: Seq<char>,
    pub sort: Sort,
}

impl View for CityData {
    type V = CityView;

    open spec fn view(&self) -> CityView {
        CityView {
            id: self.id as int,
            name: self.name@,
            time_string: self.time_string@,
            offset_seconds: self.utc_offset.seconds as int,
            is_dls: self.is_dls,
            url: self.url@,
            sort: self.sort,
        }
    }
}

impl CityView {
    /// The offset stays small enough for a two-digit hour display.
    pub open spec fn wf(self) -> bool {
        -360000 < self.offset_seconds < 360000
    }

    pub open spec fn key(self) -> Seq<char> {
        record_key_spec(self.sort, self.name, self.offset_seconds)
    }
}

/// The views of a sequence of records.
pub open spec fn city_views(s: Seq<CityData>) -> Seq<CityView> {
    s.map_values(|c: CityData| c@)
}

impl CityData {
    pub open spec fn wf(self) -> bool {
        self@.wf()
    }

    /// The string this record is ordered by.
    pub fn sort_key(&self) -> (r: String)
        requires
            self.wf(),
        ensures
            r@ == self@.key(),
    {
        let off = self.utc_offset.to_display_string();
        let mut r = String::new();
        match self.sort {
            Sort::ByName => {
                r.append(self.name.as_str());
                push_char(&mut r, '-');
                r.append(off.as_str());
            },
            Sort::ByOffset => {
                r.append(off.as_str());
                push_char(&mut r, '-');
                r.append(self.name.as_str());
            },
        }
        proof {
            assert(r@ =~= self@.key());
        }
        r
    }
}

impl Default for CityData {
    fn default() -> (r: Self)
        ensures
            r.id == 0,
            r.name@ == Seq::<char>::empty(),
            r.time_string@ == Seq::<char>::empty(),
            r.utc_offset.seconds == 0,
            r.is_dls == false,
            r.url@ == Seq::<char>::empty(),
            r.sort == Sort::ByName,
    {
        CityData {
            id: 0,
            name: String::new(),
            time_string: String::new(),
            utc_offset: UtcOffset { seconds: 0 },
            is_dls: false,
            url: String::new(),
            sort: Sort::ByName,
        }
    }
}

/// Whether some record in `s` already carries `name`; records are
/// identified by name alone.
pub open spec fn contains_name(s: Seq<CityView>, name: Seq<char>) -> bool {
    exists|i: int| 0 <= i < s.len() && s[i].name == name
}

/// Where a record with key `k` is placed: after every record whose key
/// does not exceed `k`.
pub open spec fn insert_pos(s: Seq<CityView>, k: Seq<char>) -> int
    decreases s.len(),
{
    if s.len() == 0 {
        0
    } else if lex_lt(k, s.first().key()) {
        0
    } else {
        1 + insert_pos(s.drop_first(), k)
    }
}

/// What inserting a record does to the ordered set: nothing when its name
/// is already present, otherwise an ordered insertion.
pub open spec fn city_insert_spec(s: Seq<CityView>, c: CityView) -> Seq<CityView> {
    if contains_name(s, c.name) {
        s
    } else {
        s.insert(insert_pos(s, c.key()), c)
    }
}

proof fn lemma_insert_pos_bounds(s: Seq<CityView>, k: Seq<char>)
    ensures
        0 <= insert_pos(s, k) <= s.len(),
        forall|i: int| 0 <= i < insert_pos(s, k) ==> !lex_lt(k, #[trigger] s[i].key()),
        insert_pos(s, k) < s.len() ==> lex_lt(k, s[insert_pos(s, k)].key()),
    decreases s.len(),
{
    if s.len() > 0 && !lex_lt(k, s.first().key()) {
        lemma_insert_pos_bounds(s.drop_first(), k);
        assert forall|i: int| 0 <= i < insert_pos(s, k) implies !lex_lt(
            k,
            #[trigger] s[i].key(),
        ) by {
            if i > 0 {
                assert(s.drop_first()[i - 1] == s[i]);
            }
        }
        if insert_pos(s, k) < s.len() {
            assert(s.drop_first()[insert_pos(s, k) - 1] == s[insert_pos(s, k)]);
        }
    }
}

proof fn lemma_insert_pos_unique(s: Seq<CityView>, k: Seq<char>, p: int)
    requires
        0 <= p <= s.len(),
        forall|i: int| 0 <= i < p ==> !lex_lt(k, #[trigger] s[i].key()),
        p < s.len() ==> lex_lt(k, s[p].key()),
    ensures
        insert_pos(s, k) == p,
    decreases s.len(),
{
    if s.len() > 0 {
        if p == 0 {
        } else {
            assert(!lex_lt(k, s[0].key()));
            assert forall|i: int| 0 <= i < p - 1 implies !lex_lt(
                k,
                #[trigger] s.drop_first()[i].key(),
            ) by {
                assert(s.drop_first()[i] == s[i + 1]);
            }
            if p - 1 < s.drop_first().len() {
                assert(s.drop_first()[p - 1] == s[p]);
            }
            lemma_insert_pos_unique(s.drop_first(), k, p - 1);
        }
    }
}

/// The ordered, name-deduplicated set of city records.
#[derive(Clone, Debug)]
pub struct CityTimes {
    records: Vec<CityData>,
}

impl View for CityTimes {
    type V = Seq<CityView>;

    closed spec fn view(&self) -> Seq<CityView> {
        city_views(self.records@)
    }
}

impl CityTimes {
    /// Every record well formed, keys in order, names unique.
    pub open spec fn wf(self) -> bool {
        &&& forall|i: int| 0 <= i < self@.len() ==> (#[trigger] self@[i]).wf()
        &&& forall|i: int, j: int|
            0 <= i < j < self@.len() ==> lex_le(
                (#[trigger] self@[i]).key(),
                (#[trigger] self@[j]).key(),
            )
        &&& forall|i: int, j: int|
            0 <= i < j < self@.len() ==> (#[trigger] self@[i]).name != (#[trigger] self@[j]).name
    }

    pub fn new() -> (r: CityTimes)
        ensures
            r@ == Seq::<CityView>::empty(),
            r.wf(),
    {
        let r = CityTimes { records: Vec::new() };
        proof {
            assert(r@ =~= Seq::<CityView>::empty());
        }
        r
    }

    pub fn len(&self) -> (r: usize)
        ensures
            r == self@.len(),
    {
        self.records.len()
    }

    pub fn records(&self) -> (r: &Vec<CityData>)
        ensures
            city_views(r@) == self@,
    {
        &self.records
    }

    /// Whether a record with this name is already present.
    pub fn contains_city_name(&self, name: &String) -> (r: bool)
        ensures
            r == contains_name(self@, name@),
    {
        let mut i: usize = 0;
        while i < self.records.len()
            invariant
                i <= self@.len(),
                forall|j: int| 0 <= j < i ==> (#[trigger] self@[j]).name != name@,
            decreases self@.len() - i,
        {
            proof {
                assert(self@[i as int] == self.records@[i as int]@);
            }
            if self.records[i].name.eq(name) {
                return true;
            }
            i = i + 1;
        }
        false
    }

    /// Inserts a record: dropped silently when a record of the same name is
    /// already present (the first one wins), placed in key order otherwise.
    pub fn insert(&mut self, c: CityData)
        requires
            old(self).wf(),
            c@.wf(),
        ensures
            final(self)@ == city_insert_spec(old(self)@, c@),
            final(self).wf(),
    {
        if self.contains_city_name(&c.name) {
            return;
        }
        let k = c.sort_key();
        let mut p: usize = 0;
        loop
            invariant_except_break
                old(self) == self,
                self.wf(),
                c@.wf(),
                k@ == c@.key(),
                p <= self@.len(),
                forall|i: int| 0 <= i < p ==> !lex_lt(k@, (#[trigger] self@[i]).key()),
            ensures
                old(self) == self,
                p <= self@.len(),
                forall|i: int| 0 <= i < p ==> !lex_lt(k@, (#[trigger] self@[i]).key()),
                p < self@.len() ==> lex_lt(k@, self@[p as int].key()),
            decreases self@.len() - p,
        {
            if p >= self.records.len() {
                break;
            }
            proof {
                assert(self@[p as int] == self.records@[p as int]@);
            }
            let ki = self.records[p].sort_key();
            if str_lex_lt(k.as_str(), ki.as_str()) {
                break;
            }
            p = p + 1;
        }
        proof {
            lemma_insert_pos_unique(self@, k@, p as int);
        }
        self.records.insert(p, c);
        proof {
            let s = old(self)@;
            let t = self@;
            let pos = p as int;
            assert(t =~= s.insert(pos, c@));
            let c = c@;
            assert(t == s.insert(pos, c));
            assert forall|i: int, j: int| 0 <= i < j < t.len() implies lex_le(
                (#[trigger] t[i]).key(),
                (#[trigger] t[j]).key(),
            ) by {
                lemma_city_insert_order(s, c, pos, k@, i, j);
            }
            assert forall|i: int, j: int|
                0 <= i < j < t.len() implies (#[trigger] t[i]).name != (
            #[trigger] t[j]).name by {
                lemma_city_insert_names(s, c, pos, i, j);
            }
            assert(forall|i: int| 0 <= i < t.len() ==> (#[trigger] t[i]).wf());
        }
    }
}

/// After an ordered insertion at the computed position, keys stay ordered.
proof fn lemma_city_insert_order(s: Seq<CityView>, c: CityView, pos: int, k: Seq<char>, i: int, j: int)
    requires
        k == c.key(),
        0 <= pos <= s.len(),
        forall|m: int| 0 <= m < pos ==> !lex_lt(k, #[trigger] s[m].key()),
        pos < s.len() ==> lex_lt(k, s[pos].key()),
        forall|m: int, n: int|
            0 <= m < n < s.len() ==> lex_le((#[trigger] s[m]).key(), (#[trigger] s[n]).key()),
        0 <= i < j < s.insert(pos, c).len(),
    ensures
        lex_le(s.insert(pos, c)[i].key(), s.insert(pos, c)[j].key()),
{
    let t = s.insert(pos, c);
    if i < pos && j == pos {
        assert(t[i] == s[i]);
        assert(!lex_lt(k, s[i].key()));
    } else if i == pos && j > pos {
        assert(t[j] == s[j - 1]);
        assert(lex_lt(k, s[pos].key()));
        if lex_lt(s[j - 1].key(), k) {
            lemma_lex_lt_transitive(s[j - 1].key(), k, s[pos].key());
            if pos < j - 1 {
                assert(lex_le(s[pos].key(), s[j - 1].key()));
            } else {
                crate::text::lemma_lex_lt_irreflexive(s[pos].key());
            }
            assert(false);
        }
    } else if i < pos && j > pos {
        assert(t[i] == s[i]);
        assert(t[j] == s[j - 1]);
        if i < j - 1 {
            assert(lex_le(s[i].key(), s[j - 1].key()));
        }
    } else if j < pos {
        assert(t[i] == s[i]);
        assert(t[j] == s[j]);
    } else if i > pos {
        assert(t[i] == s[i - 1]);
        assert(t[j] == s[j - 1]);
    }
}

/// After inserting a fresh name, names stay pairwise distinct.
proof fn lemma_city_insert_names(s: Seq<CityView>, c: CityView, pos: int, i: int, j: int)
    requires
        0 <= pos <= s.len(),
        !contains_name(s, c.name),
        forall|m: int, n: int|
            0 <= m < n < s.len() ==> (#[trigger] s[m]).name != (#[trigger] s[n]).name,
        0 <= i < j < s.insert(pos, c).len(),
    ensures
        s.insert(pos, c)[i].name != s.insert(pos, c)[j].name,
{
    let t = s.insert(pos, c);
    if i == pos {
        assert(t[j] == s[j - 1]);
        assert(s[j - 1].name != c.name);
    } else if j == pos {
        assert(t[i] == s[i]);
        assert(s[i].name != c.name);
    } else {
        let si = if i < pos { i } else { i - 1 };
        let sj = if j < pos { j } else { j - 1 };
        assert(t[i] == s[si]);
        assert(t[j] == s[sj]);
    }
}

/// The scheme of a URI text, as http's parser reads it: a function of the
/// text alone.
pub uninterp spec fn uri_scheme_of(s: Seq<char>) -> Option<Seq<char>>;

/// The host of a URI text, as http's parser reads it: a function of the
/// text alone.
pub uninterp spec fn uri_host_of(s: Seq<char>) -> Option<Seq<char>>;

/// Relies on `http::Uri`'s `FromStr` and `Uri::scheme_str`: the scheme
/// component of a parsed URI, absent when the text does not parse or
/// carries no scheme.
#[verifier::external_body]
fn http_uri_scheme(s: &str) -> (r: Option<String>)
    ensures
        match r {
            Some(x) => uri_scheme_of(s@) == Some(x@),
            None => uri_scheme_of(s@) is None,
        },
{
    match s.parse::<http::Uri>() {
        Ok(u) => u.scheme_str().map(|x| x.to_string()),
        Err(_) => None,
    }
}

/// Relies on `http::Uri`'s `FromStr` and `Uri::host`: the host component
/// of a parsed URI, absent when the text does not parse or carries no host.
#[verifier::external_body]
fn http_uri_host(s: &str) -> (r: Option<String>)
    ensures
        match r {
            Some(x) => uri_host_of(s@) == Some(x@),
            None => uri_host_of(s@) is None,
        },
{
    match s.parse::<http::Uri>() {
        Ok(u) => u.host().map(|x| x.to_string()),
        Err(_) => None,
    }
}

/// A page URI, reduced to the parts the extractor reads: the full text,
/// the scheme, and the host. A component the URI lacks stays empty.
#[derive(Clone, Debug)]
pub struct UriWrapper {
    pub text: String,
    pub scheme: String,
    pub host: String,
}

impl UriWrapper {
    /// Both parts needed to resolve an anchor's relative link are present.
    pub open spec fn has_page_context(self) -> bool {
        self.scheme@.len() > 0 && self.host@.len() > 0
    }

    pub fn new(url: &str) -> (r: UriWrapper)
        ensures
            r.text@ == url@,
            r.scheme@ == (match uri_scheme_of(url@) {
                Some(x) => x,
                None => Seq::<char>::empty(),
            }),
            r.host@ == (match uri_host_of(url@) {
                Some(x) => x,
                None => Seq::<char>::empty(),
            }),
    {
        let scheme = match http_uri_scheme(url) {
            Some(x) => x,
            None => String::new(),
        };
        let host = match http_uri_host(url) {
            Some(x) => x,
            None => String::new(),
        };
        UriWrapper { text: url.to_owned(), scheme, host }
    }
}

impl Default for UriWrapper {
    fn default() -> (r: Self)
        ensures
            r.text@ == Seq::<char>::empty(),
            r.scheme@ == Seq::<char>::empty(),
            r.host@ == Seq::<char>::empty(),
    {
        UriWrapper { text: String::new(), scheme: String::new(), host: String::new() }
    }
}

/// One page's dataset: the page it came from, its ordered city records,
/// and the timestamp stamped when the dataset was last persisted.
#[derive(Clone, Debug)]
pub struct TimeData {
    pub page_uri: UriWrapper,
    pub city_times: CityTimes,
    pub last_updated: String,
}

impl TimeData {
    pub open spec fn wf(self) -> bool {
        self.city_times.wf()
    }

    pub fn page_uri(&self) -> (r: &UriWrapper)
        ensures
            r == &self.page_uri,
    {
        &self.page_uri
    }
}

impl Default for TimeData {
    fn default() -> (r: Self)
        ensures
            r.page_uri.text@ == Seq::<char>::empty(),
            r.page_uri.scheme@ == Seq::<char>::empty(),
            r.page_uri.host@ == Seq::<char>::empty(),
            r.city_times@ == Seq::<CityView>::empty(),
            r.last_updated@ == Seq::<char>::empty(),
            r.wf(),
    {
        TimeData {
            page_uri: UriWrapper::default(),
            city_times: CityTimes::new(),
            last_updated: String::new(),
        }
    }
}

/// Inserting a second record with an already-present name changes nothing:
/// the first record wins, whatever else the second one carries.
/// An insertion never removes a name that is already present.
pub proof fn lemma_insert_keeps_name(s: Seq<CityView>, c: CityView, nm: Seq<char>)
    requires
        contains_name(s, nm),
    ensures
        contains_name(city_insert_spec(s, c), nm),
{
    if !contains_name(s, c.name) {
        let pos = insert_pos(s, c.key());
        lemma_insert_pos_bounds(s, c.key());
        let i = choose|i: int| 0 <= i < s.len() && s[i].name == nm;
        let t = s.insert(pos, c);
        if i < pos {
            assert(t[i] == s[i]);
        } else {
            assert(t[i + 1] == s[i]);
        }
    }
}

pub proof fn lemma_insert_first_wins(s: Seq<CityView>, a: CityView, b: CityView)
    requires
        a.name == b.name,
    ensures
        city_insert_spec(city_insert_spec(s, a), b) == city_insert_spec(s, a),
{
    let t = city_insert_spec(s, a);
    if contains_name(s, a.name) {
        assert(t == s);
        assert(contains_name(s, b.name));
    } else {
        let pos = insert_pos(s, a.key());
        lemma_insert_pos_bounds(s, a.key());
        assert(t == s.insert(pos, a));
        assert(t[pos] == a);
        assert(contains_name(t, b.name));
    }
}

} // verus!
