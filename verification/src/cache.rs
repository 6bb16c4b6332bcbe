//! The URL catalog loader and the cache validity rule: which pages to
//! fetch, and whether a previously stored collection of page datasets
//! may be served again.

use vstd::prelude::*;

use crate::parse_timeanddate_dot_com::utc_now;
use crate::string_map::StringMap;
use crate::text::{find_char, find_char_spec, split_char_spec, split_str, str_views, trim_spec, trim_str};
use crate::time_and_date_data::TimeData;

verus! {

/// The instant an RFC 3339 text denotes, in whole seconds since the Unix
/// epoch: a function of the text alone.
pub uninterp spec fn rfc3339_timestamp_of(s: Seq<char>) -> Option<int>;

/// Relies on chrono's `DateTime::parse_from_rfc3339` and
/// `DateTime::timestamp`: parses an RFC 3339 text and returns its instant
/// in whole seconds, or nothing when the text does not parse.
#[verifier::external_body]
fn parse_rfc3339_seconds(s: &str) -> (r: Option<i64>)
    ensures
        match r {
            Some(t) => rfc3339_timestamp_of(s@) == Some(t as int),
            None => rfc3339_timestamp_of(s@) is None,
        },
{
    chrono::DateTime::parse_from_rfc3339(s).ok().map(|d| d.timestamp())
}

/// A catalog line is used unless, after trimming, it is empty or starts
/// with `#` or `//`.
pub open spec fn can_use_spec(u: Seq<char>) -> bool {
    let t = trim_spec(u);
    &&& t.len() != 0
    &&& !(t[0] == '#')
    &&& !(t.len() >= 2 && t[0] == '/' && t[1] == '/')
}

/// Whether a catalog line carries an entry.
pub fn can_use(u: &String) -> (r: bool)
    ensures
        r == can_use_spec(u@),
{
    let t = trim_str(u.as_str());
    let n: usize = t.as_str().unicode_len();
    if n == 0 {
        return false;
    }
    if t.as_str().get_char(0) == '#' {
        return false;
    }
    if n >= 2 && t.as_str().get_char(0) == '/' && t.as_str().get_char(1) == '/' {
        return false;
    }
    true
}

/// A line with one trailing carriage return removed, as a line reader
/// would hand it over.
pub open spec fn strip_cr(s: Seq<char>) -> Seq<char> {
    if s.len() > 0 && s.last() == '\r' {
        s.drop_last()
    } else {
        s
    }
}

/// The entry a single catalog line denotes: nothing for an ignored line
/// or one without `=` or with nothing after the first `=`; otherwise the
/// trimmed key and value around that first `=`.
pub open spec fn line_entry_spec(line: Seq<char>) -> Option<(Seq<char>, Seq<char>)> {
    if !can_use_spec(line) {
        None
    } else {
        let p = find_char_spec(line, '=');
        if p < 0 {
            None
        } else {
            let value_raw = line.subrange(p + 1, line.len() as int);
            if value_raw.len() == 0 {
                None
            } else {
                Some((trim_spec(line.subrange(0, p)), trim_spec(value_raw)))
            }
        }
    }
}

/// The catalog a list of lines denotes, later duplicate keys overwriting
/// earlier ones.
pub open spec fn catalog_fold(lines: Seq<Seq<char>>) -> Map<Seq<char>, Seq<char>>
    decreases lines.len(),
{
    if lines.len() == 0 {
        Map::<Seq<char>, Seq<char>>::empty()
    } else {
        let m = catalog_fold(lines.drop_last());
        match line_entry_spec(strip_cr(lines.last())) {
            Some(e) => m.insert(e.0, e.1),
            None => m,
        }
    }
}

/// The catalog a whole text denotes, line by line.
pub open spec fn catalog_of(text: Seq<char>) -> Map<Seq<char>, Seq<char>> {
    catalog_fold(split_char_spec(text, '\n'))
}

/// The view of a map of strings.
pub open spec fn str_map_view(m: Map<Seq<char>, String>) -> Map<Seq<char>, Seq<char>> {
    Map::new(|k: Seq<char>| m.dom().contains(k), |k: Seq<char>| m[k]@)
}

/// Loads the URL catalog from the text of a catalog source: one
/// `key=value` entry per line, blank and `#`/`//`-prefixed lines
/// ignored, keys and values trimmed, later duplicate keys overwriting
/// earlier ones.
pub fn urls_from(text: &str) -> (r: StringMap<String>)
    ensures
        str_map_view(r@) == catalog_of(text@),
        r.wf(),
{
    let lines = split_str(text, '\n');
    let mut r: StringMap<String> = StringMap::new();
    let n: usize = lines.len();
    proof {
        assert(str_views(lines@) == split_char_spec(text@, '\n'));
        assert(str_views(lines@).subrange(0, 0) =~= Seq::<Seq<char>>::empty());
        assert(str_map_view(r@) =~= catalog_fold(str_views(lines@).subrange(0, 0)));
    }
    let mut i: usize = 0;
    while i < n
        invariant
            i <= n,
            n == lines@.len(),
            r.wf(),
            str_map_view(r@) == catalog_fold(str_views(lines@).subrange(0, i as int)),
        decreases n - i,
    {
        let ghost prefix = str_views(lines@).subrange(0, i as int);
        let ghost prefix1 = str_views(lines@).subrange(0, i + 1);
        proof {
            assert(prefix1.drop_last() =~= prefix);
            assert(prefix1.last() == lines@[i as int]@);
        }
        let raw = &lines[i];
        let rn: usize = raw.as_str().unicode_len();
        let line: String = if rn > 0 && raw.as_str().get_char(rn - 1) == '\r' {
            raw.as_str().substring_char(0, rn - 1).to_owned()
        } else {
            raw.as_str().substring_char(0, rn).to_owned()
        };
        proof {
            assert(raw@.subrange(0, rn as int) =~= raw@);
            assert(line@ == strip_cr(raw@));
        }
        if can_use(&line) {
            match find_char(line.as_str(), '=') {
                Some(p) => {
                    let ln: usize = line.as_str().unicode_len();
                    if ln - p - 1 > 0 {
                        let key = trim_str(line.as_str().substring_char(0, p));
                        let value = trim_str(line.as_str().substring_char(p + 1, ln));
                        r.insert(key, value);
                        proof {
                            assert(line_entry_spec(line@) == Some((key@, value@)));
                            assert(str_map_view(r@) =~= catalog_fold(prefix1));
                        }
                    } else {
                        proof {
                            assert(line@.subrange(p + 1, line@.len() as int).len() == 0);
                            assert(str_map_view(r@) =~= catalog_fold(prefix1));
                        }
                    }
                },
                None => {
                    proof {
                        assert(str_map_view(r@) =~= catalog_fold(prefix1));
                    }
                },
            }
        } else {
            proof {
                assert(str_map_view(r@) =~= catalog_fold(prefix1));
            }
        }
        i = i + 1;
    }
    proof {
        assert(str_views(lines@).subrange(0, n as int) =~= str_views(lines@));
    }
    r
}

/// Whether every stored dataset carries a parseable persistence
/// timestamp.
pub open spec fn all_parse(entries: Seq<(Seq<char>, TimeData)>) -> bool {
    forall|i: int|
        0 <= i < entries.len() ==> rfc3339_timestamp_of(
            (#[trigger] entries[i]).1.last_updated@,
        ) is Some
}

/// The oldest persistence instant among the stored datasets, and `now`
/// when nothing older is stored; entries whose timestamp does not parse
/// contribute nothing.
pub open spec fn oldest_spec(entries: Seq<(Seq<char>, TimeData)>, now: int) -> int
    decreases entries.len(),
{
    if entries.len() == 0 {
        now
    } else {
        let rest = oldest_spec(entries.drop_last(), now);
        match rfc3339_timestamp_of(entries.last().1.last_updated@) {
            Some(t) => if t < rest {
                t
            } else {
                rest
            },
            None => rest,
        }
    }
}

/// Finds the oldest persistence instant of the stored datasets, or
/// nothing when some stored timestamp does not parse.
pub fn oldest_last_updated(map: &StringMap<TimeData>, now: i64) -> (r: Option<i64>)
    ensures
        match r {
            Some(v) => all_parse(map.kv()) && v == oldest_spec(map.kv(), now as int),
            None => !all_parse(map.kv()),
        },
{
    let entries = map.entries();
    let n: usize = entries.len();
    let mut oldest: i64 = now;
    proof {
        assert(map.kv().subrange(0, 0) =~= Seq::<(Seq<char>, TimeData)>::empty());
    }
    let mut i: usize = 0;
    while i < n
        invariant
            i <= n,
            n == map.kv().len(),
            entries@.len() == map.kv().len(),
            forall|j: int|
                0 <= j < entries@.len() ==> (#[trigger] entries@[j]).0@ == map.kv()[j].0
                    && entries@[j].1 == map.kv()[j].1,
            all_parse(map.kv().subrange(0, i as int)),
            oldest == oldest_spec(map.kv().subrange(0, i as int), now as int),
        decreases n - i,
    {
        proof {
            assert(map.kv().subrange(0, i + 1).drop_last() =~= map.kv().subrange(0, i as int));
            assert(map.kv().subrange(0, i + 1).last() == map.kv()[i as int]);
        }
        match parse_rfc3339_seconds(entries[i].1.last_updated.as_str()) {
            Some(t) => {
                if t < oldest {
                    oldest = t;
                }
            },
            None => {
                proof {
                    assert(map.kv()[i as int].1 == entries@[i as int].1);
                    assert(!all_parse(map.kv()));
                }
                return None;
            },
        }
        i = i + 1;
    }
    proof {
        assert(map.kv().subrange(0, n as int) =~= map.kv());
    }
    Some(oldest)
}

/// Size criterion: an empty store, or one whose size differs from the
/// catalog's.
pub open spec fn cache_size_invalid(cached_len: int, urls_len: int) -> bool {
    cached_len == 0 || cached_len != urls_len
}

/// Completeness criterion: some catalog key has no stored dataset,
/// whatever the sizes say.
pub open spec fn cache_incomplete(
    cached: Map<Seq<char>, TimeData>,
    urls: Map<Seq<char>, String>,
) -> bool {
    exists|k: Seq<char>| #[trigger] urls.dom().contains(k) && !cached.dom().contains(k)
}

/// Age criterion: the oldest stored dataset is older than the
/// time-to-live allows; a stored timestamp that does not parse counts as
/// expired.
pub open spec fn cache_expired(entries: Seq<(Seq<char>, TimeData)>, now: int, ttl: int) -> bool {
    !all_parse(entries) || now - oldest_spec(entries, now) > ttl
}

/// The combined rule: stale when the store is empty or of the wrong
/// size, when some catalog key is missing from it, or when its oldest
/// dataset has outlived the time-to-live.
pub open spec fn cache_invalid_spec(
    cached: StringMap<TimeData>,
    urls: StringMap<String>,
    now: int,
    ttl: int,
) -> bool {
    ||| cache_size_invalid(cached.kv().len() as int, urls.kv().len() as int)
    ||| cache_incomplete(cached@, urls@)
    ||| cache_expired(cached.kv(), now, ttl)
}

/// Decides, against an explicit current instant, whether the stored
/// datasets must be refreshed. Returns true if and only if one of the
/// three criteria holds.
pub fn cache_invalid_at(
    cached: &StringMap<TimeData>,
    urls: &StringMap<String>,
    now: i64,
    ttl_seconds: i64,
) -> (r: bool)
    requires
        cached.wf(),
        urls.wf(),
    ensures
        r == cache_invalid_spec(*cached, *urls, now as int, ttl_seconds as int),
{
    let cached_len = cached.len();
    let urls_len = urls.len();
    if cached_len == 0 || cached_len != urls_len {
        return true;
    }
    let url_entries = urls.entries();
    let n: usize = url_entries.len();
    let mut i: usize = 0;
    while i < n
        invariant
            i <= n,
            n == urls.kv().len(),
            cached.wf(),
            url_entries@.len() == urls.kv().len(),
            forall|j: int|
                0 <= j < url_entries@.len() ==> (#[trigger] url_entries@[j]).0@ == urls.kv()[j].0,
            forall|j: int|
                0 <= j < i ==> cached@.dom().contains((#[trigger] urls.kv()[j]).0),
        decreases n - i,
    {
        if !cached.contains_key(url_entries[i].0.as_str()) {
            proof {
                urls.lemma_kv_dom(urls.kv()[i as int].0);
                assert(cache_incomplete(cached@, urls@));
            }
            return true;
        }
        i = i + 1;
    }
    proof {
        assert forall|k: Seq<char>| #[trigger] urls@.dom().contains(k) implies cached@.dom()
            .contains(k) by {
            urls.lemma_kv_dom(k);
        }
        assert(!cache_incomplete(cached@, urls@));
    }
    match oldest_last_updated(cached, now) {
        Some(oldest) => {
            let age: i128 = (now as i128) - (oldest as i128);
            age > (ttl_seconds as i128)
        },
        None => true,
    }
}

/// Decides against the clock: whatever instant the clock shows, the
/// answer is that of `cache_invalid_at` for it.
pub fn cache_invalid(cached: &StringMap<TimeData>, urls: &StringMap<String>, ttl_seconds: i64) -> (r:
    bool)
    requires
        cached.wf(),
        urls.wf(),
    ensures
        exists|now: int| r == #[trigger] cache_invalid_spec(*cached, *urls, now, ttl_seconds as int),
{
    let (_instant, now) = utc_now();
    let r = cache_invalid_at(cached, urls, now, ttl_seconds);
    proof {
        assert(r == cache_invalid_spec(*cached, *urls, now as int, ttl_seconds as int));
    }
    r
}

} // verus!
