//! The compliance checker: a recursive walk of the tree filtered by a set of
//! identifier patterns, scanning test-result texts for the fixed markers
//! `"<id>: failed"` and `"<id>: passed"`, and emitting a per-topic,
//! per-requirement status report with irrelevant subtrees pruned.
//!
//! Scan order matters: a failing marker in a later text overwrites any
//! earlier status and keeps only that text's error messages, while a passing
//! marker never overwrites an existing status.

use vstd::prelude::*;

use crate::model::{lemma_topics_height_at, topics_height, unique_keys, Project, Requirement, Topic};
use crate::render::{info_lines, topic_heading};
use crate::text::{
    collect_errors, contains_str, errors_in, has_match, push_repeat, strs_view, trim_str, trimmed,
};

verus! {

/// A compiled pattern of the regex engine, opaque to the library.
#[verifier::external_type_specification]
#[verifier::external_body]
pub struct ExRegex(regex::Regex);

/// The pattern text a compiled regex was built from, as `Regex::as_str`
/// returns it.
pub uninterp spec fn regex_source(re: regex::Regex) -> Seq<char>;

/// Whether a compiled regex matches anywhere in `text`: the result of
/// `Regex::is_match`, a function of the compiled regex value and the
/// haystack alone.
pub uninterp spec fn regex_match(re: regex::Regex, text: Seq<char>) -> bool;

/// Whether `Regex::new` accepts `pattern`: under its fixed default
/// configuration, compilation succeeds or fails as a function of the
/// pattern text alone.
pub uninterp spec fn regex_ok(pattern: Seq<char>) -> bool;

/// Relies on `regex::Regex::new`: it compiles every pattern under one fixed
/// default configuration, returns an error exactly for the patterns that
/// configuration rejects, and the compiled regex keeps the pattern text it
/// was built from (`Regex::as_str` returns it unchanged).
#[verifier::external_body]
pub fn regex_new(pattern: &str) -> (r: Option<regex::Regex>)
    ensures
        r is Some <==> regex_ok(pattern@),
        r is Some ==> regex_source(r->0) == pattern@,
{
    regex::Regex::new(pattern).ok()
}

/// Relies on `regex::Regex::is_match`: true if and only if the regex
/// matches somewhere in the haystack, a function of the compiled regex and
/// the haystack alone.
#[verifier::external_body]
pub fn regex_is_match(re: &regex::Regex, text: &str) -> (r: bool)
    ensures
        r == regex_match(*re, text@),
{
    re.is_match(text)
}

/// The pattern texts of a list of compiled regexes.
pub open spec fn pat_views(ps: Seq<regex::Regex>) -> Seq<Seq<char>> {
    ps.map_values(|r: regex::Regex| regex_source(r))
}

/// Compiles each pattern text: succeeds if and only if the regex engine
/// accepts every one of them, and the compiled regexes then carry the given
/// pattern texts in the given order.
pub fn compile_patterns(sources: &Vec<String>) -> (r: Option<Vec<regex::Regex>>)
    ensures
        r is Some <==> (forall|i: int|
            0 <= i < sources@.len() ==> regex_ok((#[trigger] sources@[i])@)),
        r is Some ==> pat_views(r->0@) == strs_view(sources@),
{
    let mut out: Vec<regex::Regex> = Vec::new();
    let mut i: usize = 0;
    while i < sources.len()
        invariant
            0 <= i <= sources@.len(),
            out@.len() == i,
            forall|k: int| 0 <= k < i ==> regex_source(#[trigger] out@[k]) == sources@[k]@,
            forall|k: int| 0 <= k < i ==> regex_ok((#[trigger] sources@[k])@),
        decreases sources@.len() - i,
    {
        match regex_new(sources[i].as_str()) {
            Some(re) => {
                out.push(re);
            },
            None => {
                assert(!regex_ok(sources@[i as int]@));
                return None;
            },
        }
        i = i + 1;
    }
    assert(pat_views(out@) =~~= strs_view(sources@));
    Some(out)
}

/// A requirement identifier is in scope when at least one compiled pattern
/// matches it.
pub open spec fn in_scope(id: Seq<char>, pats: Seq<regex::Regex>) -> bool {
    exists|i: int| 0 <= i < pats.len() && regex_match(pats[i], id)
}

/// Whether some compiled pattern matches `id`.
pub fn req_in_scope(id: &String, pats: &Vec<regex::Regex>) -> (r: bool)
    ensures
        r == in_scope(id@, pats@),
{
    let mut i: usize = 0;
    while i < pats.len()
        invariant
            0 <= i <= pats@.len(),
            forall|k: int| 0 <= k < i ==> !regex_match(#[trigger] pats@[k], id@),
        decreases pats@.len() - i,
    {
        if regex_is_match(&pats[i], id.as_str()) {
            assert(regex_match(pats@[i as int], id@));
            return true;
        }
        i = i + 1;
    }
    false
}

/// Some requirement identifier of the list is in scope.
pub open spec fn reqs_match(rs: Seq<(String, Requirement)>, pats: Seq<regex::Regex>) -> bool {
    exists|i: int| 0 <= i < rs.len() && in_scope(rs[i].0@, pats)
}

/// Whether some requirement identifier of the list is in scope.
pub fn has_valid_requirements(rs: &Vec<(String, Requirement)>, pats: &Vec<regex::Regex>) -> (r:
    bool)
    ensures
        r == reqs_match(rs@, pats@),
{
    let mut i: usize = 0;
    while i < rs.len()
        invariant
            0 <= i <= rs@.len(),
            forall|k: int| 0 <= k < i ==> !in_scope(#[trigger] rs@[k].0@, pats@),
        decreases rs@.len() - i,
    {
        if req_in_scope(&rs[i].0, pats) {
            assert(in_scope(rs@[i as int].0@, pats@));
            return true;
        }
        i = i + 1;
    }
    false
}

/// A topic list has a match when some topic holds an in-scope requirement,
/// directly or anywhere below its subtopics.
pub open spec fn topics_match(ts: Seq<(String, Topic)>, pats: Seq<regex::Regex>) -> bool
    decreases ts,
{
    if ts.len() == 0 {
        false
    } else {
        reqs_match(ts[0].1.requirements@, pats) || topics_match(ts[0].1.subtopics@, pats)
            || topics_match(ts.drop_first(), pats)
    }
}

/// Whether the topic list has an in-scope requirement anywhere below it.
pub fn has_valid_topics(ts: &Vec<(String, Topic)>, pats: &Vec<regex::Regex>) -> (r: bool)
    ensures
        r == topics_match(ts@, pats@),
    decreases ts@,
{
    let ghost p = pats@;
    let mut i: usize = 0;
    assert(ts@.skip(0) =~= ts@);
    while i < ts.len()
        invariant
            0 <= i <= ts@.len(),
            p == pats@,
            topics_match(ts@, p) == topics_match(ts@.skip(i as int), p),
        decreases ts@.len() - i,
    {
        let ghost rest = ts@.skip(i as int);
        proof {
            assert(rest[0] == ts@[i as int]);
            assert(rest.drop_first() =~= ts@.skip(i + 1));
        }
        if has_valid_requirements(&ts[i].1.requirements, pats) {
            return true;
        }
        proof {
            assert(decreases_to!(ts@ => ts@[i as int].1.subtopics@));
        }
        if has_valid_topics(&ts[i].1.subtopics, pats) {
            return true;
        }
        i = i + 1;
    }
    false
}

/// The failure marker of a trimmed identifier.
pub open spec fn marker_failed(id: Seq<char>) -> Seq<char> {
    id + ": failed"@
}

/// The success marker of a trimmed identifier.
pub open spec fn marker_passed(id: Seq<char>) -> Seq<char> {
    id + ": passed"@
}

/// A status record: whether the requirement passed, and the error messages
/// collected for it.
pub type StatusRec = (bool, Seq<Seq<char>>);

/// The view of one stored status entry.
pub open spec fn status_view(v: (bool, Vec<String>)) -> StatusRec {
    (v.0, strs_view(v.1@))
}

/// The map a list of status entries holds: later entries win.
pub open spec fn entries_map(es: Seq<(String, (bool, Vec<String>))>) -> Map<Seq<char>, StatusRec>
    decreases es.len(),
{
    if es.len() == 0 {
        Map::empty()
    } else {
        entries_map(es.drop_last()).insert(es.last().0@, status_view(es.last().1))
    }
}

/// An insertion-ordered status map from trimmed requirement identifiers to
/// status records.
pub struct StatusMap {
    entries: Vec<(String, (bool, Vec<String>))>,
}

/// An entry at `i` of a map with unique keys decides the lookup of its key.
proof fn lemma_entries_map_index(es: Seq<(String, (bool, Vec<String>))>, i: int)
    requires
        unique_keys(es),
        0 <= i < es.len(),
    ensures
        entries_map(es).dom().contains(es[i].0@),
        entries_map(es)[es[i].0@] == status_view(es[i].1),
    decreases es.len(),
{
    if i == es.len() - 1 {
    } else {
        assert(forall|a: int, b: int|
            0 <= a < b < es.drop_last().len() ==> es.drop_last()[a].0@ != es.drop_last()[b].0@);
        lemma_entries_map_index(es.drop_last(), i);
        assert(es.last().0@ != es[i].0@);
    }
}

/// A key no entry carries is absent from the map.
proof fn lemma_entries_map_absent(es: Seq<(String, (bool, Vec<String>))>, k: Seq<char>)
    requires
        forall|i: int| 0 <= i < es.len() ==> es[i].0@ != k,
    ensures
        !entries_map(es).dom().contains(k),
    decreases es.len(),
{
    if es.len() > 0 {
        lemma_entries_map_absent(es.drop_last(), k);
    }
}

/// Replacing the value at `i` replaces the key's mapping and nothing else.
proof fn lemma_entries_map_update(
    es: Seq<(String, (bool, Vec<String>))>,
    i: int,
    e: (String, (bool, Vec<String>)),
)
    requires
        unique_keys(es),
        0 <= i < es.len(),
        e.0@ == es[i].0@,
    ensures
        entries_map(es.update(i, e)) == entries_map(es).insert(e.0@, status_view(e.1)),
    decreases es.len(),
{
    let up = es.update(i, e);
    if i == es.len() - 1 {
        assert(up.drop_last() =~= es.drop_last());
        assert(up.last() == e);
        assert(entries_map(up) == entries_map(es.drop_last()).insert(e.0@, status_view(e.1)));
        assert(entries_map(es).insert(e.0@, status_view(e.1)) =~= entries_map(
            es.drop_last(),
        ).insert(e.0@, status_view(e.1)));
    } else {
        assert(forall|a: int, b: int|
            0 <= a < b < es.drop_last().len() ==> es.drop_last()[a].0@ != es.drop_last()[b].0@);
        lemma_entries_map_update(es.drop_last(), i, e);
        assert(up.drop_last() =~= es.drop_last().update(i, e));
        assert(up.last() == es.last());
        assert(es.last().0@ != e.0@);
        assert(entries_map(up) =~= entries_map(es).insert(e.0@, status_view(e.1)));
    }
}

impl StatusMap {
    /// Keys are unique, so a scan for the first matching key is the lookup.
    pub closed spec fn wf(&self) -> bool {
        unique_keys(self.entries@)
    }

    /// The map held.
    pub closed spec fn smap(&self) -> Map<Seq<char>, StatusRec> {
        entries_map(self.entries@)
    }

    /// The empty status map.
    pub fn new() -> (r: StatusMap)
        ensures
            r.wf(),
            r.smap() == Map::<Seq<char>, StatusRec>::empty(),
    {
        StatusMap { entries: Vec::new() }
    }

    /// The status recorded for `k`, if any.
    pub fn get(&self, k: &String) -> (r: Option<&(bool, Vec<String>)>)
        requires
            self.wf(),
        ensures
            match r {
                Some(v) => self.smap().dom().contains(k@) && status_view(*v) == self.smap()[k@],
                None => !self.smap().dom().contains(k@),
            },
    {
        let mut i: usize = 0;
        while i < self.entries.len()
            invariant
                0 <= i <= self.entries@.len(),
                self.wf(),
                forall|m: int| 0 <= m < i ==> self.entries@[m].0@ != k@,
            decreases self.entries@.len() - i,
        {
            if self.entries[i].0 == *k {
                proof {
                    lemma_entries_map_index(self.entries@, i as int);
                }
                return Some(&self.entries[i].1);
            }
            i = i + 1;
        }
        proof {
            lemma_entries_map_absent(self.entries@, k@);
        }
        None
    }

    /// Records `v` for `k`, overwriting any earlier record; a fresh key
    /// keeps its insertion position at the end.
    pub fn set(&mut self, k: String, v: (bool, Vec<String>))
        requires
            old(self).wf(),
        ensures
            final(self).wf(),
            final(self).smap() == old(self).smap().insert(k@, status_view(v)),
    {
        let mut i: usize = 0;
        while i < self.entries.len()
            invariant
                0 <= i <= self.entries@.len(),
                self == old(self),
                old(self).wf(),
                forall|m: int| 0 <= m < i ==> self.entries@[m].0@ != k@,
            decreases self.entries@.len() - i,
        {
            if self.entries[i].0 == *(&k) {
                let ghost es = self.entries@;
                proof {
                    lemma_entries_map_update(es, i as int, (k, v));
                }
                self.entries[i] = (k, v);
                assert(self.entries@ == es.update(i as int, (k, v)));
                assert(forall|a: int, b: int|
                    0 <= a < b < self.entries@.len() ==> self.entries@[a].0@
                        != self.entries@[b].0@);
                return ;
            }
            i = i + 1;
        }
        proof {
            lemma_entries_map_absent(self.entries@, k@);
        }
        let ghost es = self.entries@;
        self.entries.push((k, v));
        proof {
            assert(self.entries@.drop_last() =~= es);
            assert(forall|a: int, b: int|
                0 <= a < b < self.entries@.len() ==> self.entries@[a].0@ != self.entries@[b].0@);
        }
    }

    /// Records `v` for `k` only if no status is recorded for `k` yet.
    pub fn put_if_absent(&mut self, k: String, v: (bool, Vec<String>))
        requires
            old(self).wf(),
        ensures
            final(self).wf(),
            final(self).smap() == if old(self).smap().dom().contains(k@) {
                old(self).smap()
            } else {
                old(self).smap().insert(k@, status_view(v))
            },
    {
        let mut i: usize = 0;
        while i < self.entries.len()
            invariant
                0 <= i <= self.entries@.len(),
                self == old(self),
                old(self).wf(),
                forall|m: int| 0 <= m < i ==> self.entries@[m].0@ != k@,
            decreases self.entries@.len() - i,
        {
            if self.entries[i].0 == *(&k) {
                proof {
                    lemma_entries_map_index(self.entries@, i as int);
                }
                return ;
            }
            i = i + 1;
        }
        proof {
            lemma_entries_map_absent(self.entries@, k@);
        }
        let ghost es = self.entries@;
        self.entries.push((k, v));
        proof {
            assert(self.entries@.drop_last() =~= es);
            assert(forall|a: int, b: int|
                0 <= a < b < self.entries@.len() ==> self.entries@[a].0@ != self.entries@[b].0@);
        }
    }
}

/// One requirement's effect of scanning one text: a failure marker
/// overwrites unconditionally with that text's error messages; a success
/// marker records a pass only if nothing is recorded yet; an out-of-scope
/// identifier changes nothing.
pub open spec fn upd_req(
    m: Map<Seq<char>, StatusRec>,
    text: Seq<char>,
    id: Seq<char>,
    pats: Seq<regex::Regex>,
) -> Map<Seq<char>, StatusRec> {
    if in_scope(id, pats) {
        let k = trimmed(id);
        if has_match(text, marker_failed(k)) {
            m.insert(k, (false, errors_in(text, marker_failed(k))))
        } else if has_match(text, marker_passed(k)) {
            if m.dom().contains(k) {
                m
            } else {
                m.insert(k, (true, Seq::empty()))
            }
        } else {
            m
        }
    } else {
        m
    }
}

/// The effect of scanning one text for every requirement of the list, in
/// order.
pub open spec fn upd_reqs(
    m: Map<Seq<char>, StatusRec>,
    text: Seq<char>,
    rs: Seq<(String, Requirement)>,
    pats: Seq<regex::Regex>,
) -> Map<Seq<char>, StatusRec>
    decreases rs.len(),
{
    if rs.len() == 0 {
        m
    } else {
        upd_reqs(upd_req(m, text, rs[0].0@, pats), text, rs.drop_first(), pats)
    }
}

/// The effect of scanning every text, in the given order.
pub open spec fn scan_texts(
    m: Map<Seq<char>, StatusRec>,
    texts: Seq<Seq<char>>,
    rs: Seq<(String, Requirement)>,
    pats: Seq<regex::Regex>,
) -> Map<Seq<char>, StatusRec>
    decreases texts.len(),
{
    if texts.len() == 0 {
        m
    } else {
        scan_texts(upd_reqs(m, texts[0], rs, pats), texts.drop_first(), rs, pats)
    }
}

/// The status map of a topic's requirement list after scanning every text.
pub open spec fn status_map(
    texts: Seq<Seq<char>>,
    rs: Seq<(String, Requirement)>,
    pats: Seq<regex::Regex>,
) -> Map<Seq<char>, StatusRec> {
    scan_texts(Map::empty(), texts, rs, pats)
}

/// Scans one text and updates the status map for every requirement of the
/// list, in order.
pub fn check_requirements(
    test_results: &str,
    output: &mut StatusMap,
    requirements: &Vec<(String, Requirement)>,
    pats: &Vec<regex::Regex>,
)
    requires
        old(output).wf(),
    ensures
        final(output).wf(),
        final(output).smap() == upd_reqs(
            old(output).smap(),
            test_results@,
            requirements@,
            pats@,
        ),
{
    let ghost p = pats@;
    let mut i: usize = 0;
    assert(requirements@.skip(0) =~= requirements@);
    while i < requirements.len()
        invariant
            0 <= i <= requirements@.len(),
            p == pats@,
            output.wf(),
            upd_reqs(old(output).smap(), test_results@, requirements@, p) == upd_reqs(
                output.smap(),
                test_results@,
                requirements@.skip(i as int),
                p,
            ),
        decreases requirements@.len() - i,
    {
        let ghost rest = requirements@.skip(i as int);
        let ghost m0 = output.smap();
        proof {
            assert(rest[0] == requirements@[i as int]);
            assert(rest.drop_first() =~= requirements@.skip(i + 1));
        }
        let id = &requirements[i].0;
        if req_in_scope(id, pats) {
            let tid = trim_str(id.as_str());
            let mut fm = tid.to_owned();
            fm.append(": failed");
            assert(fm@ == marker_failed(trimmed(id@)));
            if contains_str(test_results, fm.as_str()) {
                let errors = collect_errors(test_results, fm.as_str());
                output.set(tid.to_owned(), (false, errors));
                assert(output.smap() == upd_req(m0, test_results@, rest[0].0@, p));
            } else {
                let mut pm = tid.to_owned();
                pm.append(": passed");
                assert(pm@ == marker_passed(trimmed(id@)));
                if contains_str(test_results, pm.as_str()) {
                    output.put_if_absent(tid.to_owned(), (true, Vec::new()));
                    assert(strs_view(Seq::<String>::empty()) =~= Seq::<Seq<char>>::empty());
                    assert(output.smap() == upd_req(m0, test_results@, rest[0].0@, p));
                } else {
                    assert(output.smap() == upd_req(m0, test_results@, rest[0].0@, p));
                }
            }
        } else {
            assert(output.smap() == upd_req(m0, test_results@, rest[0].0@, p));
        }
        i = i + 1;
    }
    assert(requirements@.skip(requirements@.len() as int) =~= Seq::<(String, Requirement)>::empty());
}

/// A requirement's report bullet: identifier trimmed, name as it stands,
/// and the status marker its recorded status selects — a warning marker
/// where nothing was recorded.
pub open spec fn status_line(m: Map<Seq<char>, StatusRec>, id: String, name: String) -> Seq<char> {
    "- _"@ + trimmed(id@) + "_ - "@ + name@ + ": "@ + (if !m.dom().contains(id@) {
        ":warning:"@
    } else if m[id@].0 {
        ":white_check_mark:"@
    } else {
        ":x:"@
    })
}

/// The indented error lines below a requirement's bullet: the recorded
/// error messages, trimmed; none where nothing was recorded.
pub open spec fn err_lines(m: Map<Seq<char>, StatusRec>, id: String) -> Seq<Seq<char>> {
    if m.dom().contains(id@) {
        m[id@].1.map_values(|e: Seq<char>| "  - "@ + trimmed(e))
    } else {
        Seq::empty()
    }
}

/// The report bullets of a requirement list under a status map, in order.
pub open spec fn status_bullets(
    m: Map<Seq<char>, StatusRec>,
    rs: Seq<(String, Requirement)>,
) -> Seq<Seq<char>>
    decreases rs.len(),
{
    if rs.len() == 0 {
        Seq::empty()
    } else {
        seq![status_line(m, rs[0].0, rs[0].1.name)] + err_lines(m, rs[0].0) + status_bullets(
            m,
            rs.drop_first(),
        )
    }
}

/// The report lines of the topics of a surviving list: pruned topics
/// produce nothing; each surviving topic emits its heading, its requirement
/// bullets under the status map of all texts followed by a blank line, and
/// its subtopic report one level deeper followed by a blank line.
pub open spec fn check_list(
    texts: Seq<Seq<char>>,
    ts: Seq<(String, Topic)>,
    pats: Seq<regex::Regex>,
    level: nat,
) -> Seq<Seq<char>>
    decreases ts, 0int,
{
    if ts.len() == 0 {
        Seq::empty()
    } else {
        (if !topics_match(ts[0].1.subtopics@, pats) && !reqs_match(ts[0].1.requirements@, pats) {
            Seq::empty()
        } else {
            seq![topic_heading(level, ts[0].0, ts[0].1.name@)] + (
            if ts[0].1.requirements@.len() > 0 {
                status_bullets(status_map(texts, ts[0].1.requirements@, pats), ts[0].1.requirements@)
                    + seq![Seq::<char>::empty()]
            } else {
                Seq::empty()
            }) + (if ts[0].1.subtopics@.len() > 0 {
                check_topics_spec(texts, ts[0].1.subtopics@, pats, level + 1) + seq![
                    Seq::<char>::empty(),
                ]
            } else {
                Seq::empty()
            })
        }) + check_list(texts, ts.drop_first(), pats, level)
    }
}

/// The report lines of a topic list: nothing at all when no identifier
/// below the list matches any pattern, otherwise the lines of its topics.
pub open spec fn check_topics_spec(
    texts: Seq<Seq<char>>,
    ts: Seq<(String, Topic)>,
    pats: Seq<regex::Regex>,
    level: nat,
) -> Seq<Seq<char>>
    decreases ts, 1int,
{
    if !topics_match(ts, pats) {
        Seq::empty()
    } else {
        check_list(texts, ts, pats, level)
    }
}

/// Walks the topic list and appends the report lines at heading depth
/// `level`, scanning the given texts in their given order.
pub fn check_topics(
    test_results: &Vec<String>,
    output: &mut Vec<String>,
    topics: &Vec<(String, Topic)>,
    pats: &Vec<regex::Regex>,
    level: usize,
)
    requires
        level >= 1,
        level + topics_height(topics@) <= usize::MAX,
    ensures
        strs_view(final(output)@) == strs_view(old(output)@) + check_topics_spec(
            strs_view(test_results@),
            topics@,
            pats@,
            level as nat,
        ),
    decreases topics@,
{
    let ghost texts = strs_view(test_results@);
    let ghost p = pats@;
    if !has_valid_topics(topics, pats) {
        assert(strs_view(output@) + check_topics_spec(texts, topics@, p, level as nat) =~~=
            strs_view(output@));
        return ;
    }
    let mut i: usize = 0;
    assert(topics@.skip(0) =~= topics@);
    while i < topics.len()
        invariant
            0 <= i <= topics@.len(),
            level >= 1,
            level + topics_height(topics@) <= usize::MAX,
            texts == strs_view(test_results@),
            p == pats@,
            strs_view(old(output)@) + check_list(texts, topics@, p, level as nat) =~~= strs_view(
                output@,
            ) + check_list(texts, topics@.skip(i as int), p, level as nat),
        decreases topics@.len() - i,
    {
        let ghost rest = topics@.skip(i as int);
        let ghost out0 = strs_view(output@);
        proof {
            assert(rest[0] == topics@[i as int]);
            assert(rest.drop_first() =~= topics@.skip(i + 1));
        }
        let topic = &topics[i].1;
        let sub_ok = has_valid_topics(&topic.subtopics, pats);
        let req_ok = has_valid_requirements(&topic.requirements, pats);
        if sub_ok || req_ok {
            let mut line = String::new();
            push_repeat(&mut line, '#', level);
            line.append(" _");
            line.append(trim_str(topics[i].0.as_str()));
            line.append("_ - ");
            line.append(topic.name.as_str());
            assert(line@ =~= topic_heading(level as nat, rest[0].0, rest[0].1.name@));
            output.push(line);
            let ghost with_heading = strs_view(output@);
            assert(with_heading =~~= out0 + seq![topic_heading(
                level as nat,
                rest[0].0,
                rest[0].1.name@,
            )]);
            if topic.requirements.len() > 0 {
                assert(topic.requirements@ == rest[0].1.requirements@);
                let mut test_status = StatusMap::new();
                let mut j: usize = 0;
                assert(texts.skip(0) =~= texts);
                while j < test_results.len()
                    invariant
                        0 <= j <= test_results@.len(),
                        texts == strs_view(test_results@),
                        p == pats@,
                        test_status.wf(),
                        status_map(texts, topic.requirements@, p) == scan_texts(
                            test_status.smap(),
                            texts.skip(j as int),
                            topic.requirements@,
                            p,
                        ),
                    decreases test_results@.len() - j,
                {
                    let ghost trest = texts.skip(j as int);
                    proof {
                        assert(trest[0] == texts[j as int]);
                        assert(texts[j as int] == test_results@[j as int]@);
                        assert(trest.drop_first() =~= texts.skip(j + 1));
                    }
                    check_requirements(
                        test_results[j].as_str(),
                        &mut test_status,
                        &topic.requirements,
                        pats,
                    );
                    j = j + 1;
                }
                assert(texts.skip(texts.len() as int) =~= Seq::<Seq<char>>::empty());
                let ghost m = status_map(texts, topic.requirements@, p);
                assert(test_status.smap() == m);
                let mut r: usize = 0;
                let ghost reqs = topic.requirements@;
                assert(reqs.skip(0) =~= reqs);
                let ghost before_bullets = strs_view(output@);
                while r < topic.requirements.len()
                    invariant
                        0 <= r <= reqs.len(),
                        reqs == topic.requirements@,
                        topic == &topics@[i as int].1,
                        0 <= i < topics@.len(),
                        test_status.wf(),
                        test_status.smap() == m,
                        before_bullets + status_bullets(m, reqs) =~~= strs_view(output@)
                            + status_bullets(m, reqs.skip(r as int)),
                    decreases reqs.len() - r,
                {
                    let ghost rrest = reqs.skip(r as int);
                    let ghost bout0 = strs_view(output@);
                    proof {
                        assert(rrest[0] == reqs[r as int]);
                        assert(rrest.drop_first() =~= reqs.skip(r + 1));
                    }
                    let id = &topic.requirements[r].0;
                    let mut line = String::new();
                    line.append("- _");
                    line.append(trim_str(id.as_str()));
                    line.append("_ - ");
                    line.append(topic.requirements[r].1.name.as_str());
                    line.append(": ");
                    match test_status.get(id) {
                        Some(v) => {
                            if v.0 {
                                line.append(":white_check_mark:");
                            } else {
                                line.append(":x:");
                            }
                        },
                        None => {
                            line.append(":warning:");
                        },
                    }
                    assert(line@ =~= status_line(m, rrest[0].0, rrest[0].1.name));
                    output.push(line);
                    match test_status.get(id) {
                        Some(v) => {
                            crate::render::push_infos(output, &v.1);
                            assert(info_lines(v.1@) =~~= err_lines(m, rrest[0].0));
                        },
                        None => {
                            assert(err_lines(m, rrest[0].0) =~= Seq::<Seq<char>>::empty());
                        },
                    }
                    proof {
                        assert(status_bullets(m, rrest) == seq![status_line(
                            m,
                            rrest[0].0,
                            rrest[0].1.name,
                        )] + err_lines(m, rrest[0].0) + status_bullets(m, reqs.skip(r + 1)));
                        assert(strs_view(output@) =~~= bout0 + seq![status_line(
                            m,
                            rrest[0].0,
                            rrest[0].1.name,
                        )] + err_lines(m, rrest[0].0));
                        assert(strs_view(output@) + status_bullets(m, reqs.skip(r + 1)) =~~= bout0
                            + status_bullets(m, rrest));
                    }
                    r = r + 1;
                }
                assert(status_bullets(m, reqs.skip(reqs.len() as int)) =~= Seq::<
                    Seq<char>,
                >::empty());
                let ghost after_bullets = strs_view(output@);
                assert(after_bullets + Seq::<Seq<char>>::empty() =~~= after_bullets);
                assert(after_bullets =~~= with_heading + status_bullets(m, reqs));
                output.push(String::new());
                assert(strs_view(output@) =~~= after_bullets.push(Seq::<char>::empty()));
                assert(strs_view(output@) =~~= with_heading + (status_bullets(
                    m,
                    rest[0].1.requirements@,
                ) + seq![Seq::<char>::empty()]));
            }
            let ghost with_reqs = strs_view(output@);
            assert(with_reqs =~~= with_heading + (if rest[0].1.requirements@.len() > 0 {
                status_bullets(status_map(texts, rest[0].1.requirements@, p), rest[0].1.requirements@)
                    + seq![Seq::<char>::empty()]
            } else {
                Seq::<Seq<char>>::empty()
            }));
            if topic.subtopics.len() > 0 {
                proof {
                    lemma_topics_height_at(topics@, i as int);
                    assert(decreases_to!(topics@ => topics@[i as int].1.subtopics@));
                }
                check_topics(test_results, output, &topic.subtopics, pats, level + 1);
                let ghost after_sub = strs_view(output@);
                assert(after_sub =~~= with_reqs + check_topics_spec(
                    texts,
                    rest[0].1.subtopics@,
                    p,
                    (level + 1) as nat,
                ));
                output.push(String::new());
                assert(strs_view(output@) =~~= after_sub.push(Seq::<char>::empty()));
                assert(strs_view(output@) =~~= with_reqs + (check_topics_spec(
                    texts,
                    rest[0].1.subtopics@,
                    p,
                    (level + 1) as nat,
                ) + seq![Seq::<char>::empty()]));
            }
            proof {
                let hd = seq![topic_heading(level as nat, rest[0].0, rest[0].1.name@)];
                let reqs_part = if rest[0].1.requirements@.len() > 0 {
                    status_bullets(
                        status_map(texts, rest[0].1.requirements@, p),
                        rest[0].1.requirements@,
                    ) + seq![Seq::<char>::empty()]
                } else {
                    Seq::<Seq<char>>::empty()
                };
                let subs_part = if rest[0].1.subtopics@.len() > 0 {
                    check_topics_spec(texts, rest[0].1.subtopics@, p, (level + 1) as nat) + seq![
                        Seq::<char>::empty(),
                    ]
                } else {
                    Seq::<Seq<char>>::empty()
                };
                assert(check_list(texts, rest, p, level as nat) == (hd + reqs_part + subs_part)
                    + check_list(texts, topics@.skip(i + 1), p, level as nat));
                assert(strs_view(output@) =~~= out0 + (hd + reqs_part + subs_part));
                assert(strs_view(output@) + check_list(texts, topics@.skip(i + 1), p, level as nat)
                    =~~= out0 + check_list(texts, rest, p, level as nat));
            }
        } else {
            proof {
                assert(check_list(texts, rest, p, level as nat) == Seq::<Seq<char>>::empty()
                    + check_list(texts, topics@.skip(i + 1), p, level as nat));
                assert(strs_view(output@) + check_list(texts, topics@.skip(i + 1), p, level as nat)
                    =~~= out0 + check_list(texts, rest, p, level as nat));
            }
        }
        i = i + 1;
    }
    assert(check_list(texts, topics@.skip(topics@.len() as int), p, level as nat) =~= Seq::<
        Seq<char>,
    >::empty());
    assert(strs_view(output@) =~~= strs_view(old(output)@) + check_list(
        texts,
        topics@,
        p,
        level as nat,
    ));
}

/// The whole compliance report: a title line from the project name, then
/// the report of the topic tree at heading depth two.
pub open spec fn check_report(p: Project, texts: Seq<Seq<char>>, pats: Seq<regex::Regex>) -> Seq<
    Seq<char>,
> {
    seq!["# Test Results - "@ + p.name@] + check_topics_spec(texts, p.topics@, pats, 2)
}

/// Cross-checks the catalogue's requirement identifiers against the given
/// test-result texts, in their given order, and reports pass, failure or
/// absence per requirement of every surviving topic.
pub fn check(project: &Project, pats: &Vec<regex::Regex>, test_results: &Vec<String>) -> (r: Vec<
    String,
>)
    requires
        2 + topics_height(project.topics@) <= usize::MAX,
    ensures
        strs_view(r@) == check_report(*project, strs_view(test_results@), pats@),
{
    let mut out: Vec<String> = Vec::new();
    let mut title = String::new();
    title.append("# Test Results - ");
    title.append(project.name.as_str());
    out.push(title);
    assert(strs_view(out@) =~~= seq!["# Test Results - "@ + project.name@]);
    check_topics(test_results, &mut out, &project.topics, pats, 2);
    assert(strs_view(out@) =~~= check_report(*project, strs_view(test_results@), pats@));
    out
}


/// The status an identifier would be recorded with, seen per key: what one
/// text does to one key's record.
pub open spec fn text_step(prev: Option<StatusRec>, text: Seq<char>, k: Seq<char>) -> Option<
    StatusRec,
> {
    if has_match(text, marker_failed(k)) {
        Some((false, errors_in(text, marker_failed(k))))
    } else if has_match(text, marker_passed(k)) {
        match prev {
            None => Some((true, Seq::empty())),
            Some(v) => Some(v),
        }
    } else {
        prev
    }
}

/// The record a map holds at `k`, if any.
pub open spec fn map_at(m: Map<Seq<char>, StatusRec>, k: Seq<char>) -> Option<StatusRec> {
    if m.dom().contains(k) {
        Some(m[k])
    } else {
        None
    }
}

/// Some requirement of the list is in scope and trims to the key `k`.
pub open spec fn key_scoped(
    rs: Seq<(String, Requirement)>,
    pats: Seq<regex::Regex>,
    k: Seq<char>,
) -> bool {
    exists|j: int| 0 <= j < rs.len() && in_scope(rs[j].0@, pats) && trimmed(rs[j].0@) == k
}

/// The fold of the per-text step over the texts, in order.
pub open spec fn steps_fold(
    prev: Option<StatusRec>,
    texts: Seq<Seq<char>>,
    k: Seq<char>,
) -> Option<StatusRec>
    decreases texts.len(),
{
    if texts.len() == 0 {
        prev
    } else {
        steps_fold(text_step(prev, texts[0], k), texts.drop_first(), k)
    }
}

/// The per-text step is idempotent: two requirements trimming to the same
/// key record the same thing.
proof fn lemma_text_step_idem(prev: Option<StatusRec>, text: Seq<char>, k: Seq<char>)
    ensures
        text_step(text_step(prev, text, k), text, k) == text_step(prev, text, k),
{
}

/// One key of the map after one text was scanned for every requirement:
/// stepped once if some in-scope requirement trims to the key, untouched
/// otherwise.
proof fn lemma_upd_reqs_at_key(
    m: Map<Seq<char>, StatusRec>,
    text: Seq<char>,
    rs: Seq<(String, Requirement)>,
    pats: Seq<regex::Regex>,
    k: Seq<char>,
)
    ensures
        map_at(upd_reqs(m, text, rs, pats), k) == if key_scoped(rs, pats, k) {
            text_step(map_at(m, k), text, k)
        } else {
            map_at(m, k)
        },
    decreases rs.len(),
{
    if rs.len() == 0 {
        assert(!key_scoped(rs, pats, k));
    } else {
        let m1 = upd_req(m, text, rs[0].0@, pats);
        let tail = rs.drop_first();
        lemma_upd_reqs_at_key(m1, text, tail, pats, k);
        if in_scope(rs[0].0@, pats) && trimmed(rs[0].0@) == k {
            assert(map_at(m1, k) == text_step(map_at(m, k), text, k));
            assert(key_scoped(rs, pats, k));
            if key_scoped(tail, pats, k) {
                lemma_text_step_idem(map_at(m, k), text, k);
            }
        } else {
            assert(map_at(m1, k) == map_at(m, k));
            if key_scoped(tail, pats, k) {
                let j = choose|j: int|
                    0 <= j < tail.len() && in_scope(tail[j].0@, pats) && trimmed(tail[j].0@) == k;
                assert(tail[j] == rs[j + 1]);
                assert(key_scoped(rs, pats, k));
            }
            if key_scoped(rs, pats, k) {
                let j = choose|j: int|
                    0 <= j < rs.len() && in_scope(rs[j].0@, pats) && trimmed(rs[j].0@) == k;
                assert(j >= 1);
                assert(tail[j - 1] == rs[j]);
                assert(key_scoped(tail, pats, k));
            }
        }
    }
}

/// One key of the map after every text was scanned: the fold of the steps
/// over the texts in order, or nothing where no in-scope requirement trims
/// to the key.
proof fn lemma_scan_at_key(
    m: Map<Seq<char>, StatusRec>,
    texts: Seq<Seq<char>>,
    rs: Seq<(String, Requirement)>,
    pats: Seq<regex::Regex>,
    k: Seq<char>,
)
    ensures
        map_at(scan_texts(m, texts, rs, pats), k) == if key_scoped(rs, pats, k) {
            steps_fold(map_at(m, k), texts, k)
        } else {
            map_at(m, k)
        },
    decreases texts.len(),
{
    if texts.len() > 0 {
        lemma_upd_reqs_at_key(m, texts[0], rs, pats, k);
        lemma_scan_at_key(upd_reqs(m, texts[0], rs, pats), texts.drop_first(), rs, pats, k);
    }
}

/// The final status of one identifier under the whole scan: the fold of the
/// per-text steps, in text order, starting from no record.
pub proof fn lemma_status_map_at_key(
    texts: Seq<Seq<char>>,
    rs: Seq<(String, Requirement)>,
    pats: Seq<regex::Regex>,
    k: Seq<char>,
)
    ensures
        map_at(status_map(texts, rs, pats), k) == if key_scoped(rs, pats, k) {
            steps_fold(None, texts, k)
        } else {
            None::<StatusRec>
        },
{
    lemma_scan_at_key(Map::empty(), texts, rs, pats, k);
    assert(map_at(Map::<Seq<char>, StatusRec>::empty(), k) == None::<StatusRec>);
}

/// Failure dominance. Given one text that marks the identifier passed and
/// never failed, and another that marks it failed: whichever of the two
/// orders the texts are scanned in, the final status is failed and carries
/// the failing text's error messages alone — a pass never overwrites an
/// existing failure, and a failure overwrites an existing pass.
pub proof fn lemma_failure_dominance(
    ta: Seq<char>,
    tb: Seq<char>,
    rs: Seq<(String, Requirement)>,
    pats: Seq<regex::Regex>,
    id: String,
    name: String,
)
    requires
        exists|j: int| 0 <= j < rs.len() && rs[j].0@ == id@,
        id@ == trimmed(id@),
        in_scope(id@, pats),
        has_match(ta, marker_passed(id@)),
        !has_match(ta, marker_failed(id@)),
        has_match(tb, marker_failed(id@)),
    ensures
        map_at(status_map(seq![ta, tb], rs, pats), id@) == Some(
            (false, errors_in(tb, marker_failed(id@))),
        ),
        map_at(status_map(seq![tb, ta], rs, pats), id@) == Some(
            (false, errors_in(tb, marker_failed(id@))),
        ),
        status_line(status_map(seq![ta, tb], rs, pats), id, name) == "- _"@ + trimmed(id@)
            + "_ - "@ + name@ + ": "@ + ":x:"@,
        status_line(status_map(seq![tb, ta], rs, pats), id, name) == status_line(
            status_map(seq![ta, tb], rs, pats),
            id,
            name,
        ),
        err_lines(status_map(seq![ta, tb], rs, pats), id) == errors_in(
            tb,
            marker_failed(id@),
        ).map_values(|e: Seq<char>| "  - "@ + trimmed(e)),
        err_lines(status_map(seq![tb, ta], rs, pats), id) == err_lines(
            status_map(seq![ta, tb], rs, pats),
            id,
        ),
{
    let k = id@;
    assert(key_scoped(rs, pats, k)) by {
        let j = choose|j: int| 0 <= j < rs.len() && rs[j].0@ == id@;
        assert(in_scope(rs[j].0@, pats) && trimmed(rs[j].0@) == k);
    }
    let ab = seq![ta, tb];
    let ba = seq![tb, ta];
    lemma_status_map_at_key(ab, rs, pats, k);
    lemma_status_map_at_key(ba, rs, pats, k);
    assert(ab.drop_first() =~= seq![tb]);
    assert(seq![tb].drop_first() =~= Seq::<Seq<char>>::empty());
    assert(ba.drop_first() =~= seq![ta]);
    assert(seq![ta].drop_first() =~= Seq::<Seq<char>>::empty());
    let s1 = text_step(None, ta, k);
    assert(s1 == Some((true, Seq::<Seq<char>>::empty())));
    let s2 = text_step(s1, tb, k);
    assert(s2 == Some((false, errors_in(tb, marker_failed(k)))));
    assert(steps_fold(None, ab, k) == steps_fold(s1, seq![tb], k));
    assert(steps_fold(s1, seq![tb], k) == steps_fold(s2, Seq::<Seq<char>>::empty(), k));
    assert(steps_fold(s2, Seq::<Seq<char>>::empty(), k) == s2);
    let r1 = text_step(None, tb, k);
    assert(r1 == Some((false, errors_in(tb, marker_failed(k)))));
    let r2 = text_step(r1, ta, k);
    assert(r2 == r1);
    assert(steps_fold(None, ba, k) == steps_fold(r1, seq![ta], k));
    assert(steps_fold(r1, seq![ta], k) == steps_fold(r2, Seq::<Seq<char>>::empty(), k));
    assert(steps_fold(r2, Seq::<Seq<char>>::empty(), k) == r2);
}

/// A key never touched stays out of the map under one text's scan.
proof fn lemma_upd_reqs_no_marker(
    m: Map<Seq<char>, StatusRec>,
    text: Seq<char>,
    rs: Seq<(String, Requirement)>,
    pats: Seq<regex::Regex>,
    k: Seq<char>,
)
    requires
        !has_match(text, marker_failed(k)),
        !has_match(text, marker_passed(k)),
        !m.dom().contains(k),
    ensures
        !upd_reqs(m, text, rs, pats).dom().contains(k),
    decreases rs.len(),
{
    if rs.len() > 0 {
        let m1 = upd_req(m, text, rs[0].0@, pats);
        assert(!m1.dom().contains(k));
        lemma_upd_reqs_no_marker(m1, text, rs.drop_first(), pats, k);
    }
}

/// An identifier for which no text carries a failure or success marker is
/// reported unknown: it never enters the status map, its bullet carries the
/// warning marker, and it has no error lines.
pub proof fn lemma_unreported_is_unknown(
    texts: Seq<Seq<char>>,
    rs: Seq<(String, Requirement)>,
    pats: Seq<regex::Regex>,
    id: String,
    name: String,
)
    requires
        forall|j: int|
            0 <= j < texts.len() ==> !has_match(#[trigger] texts[j], marker_failed(id@))
                && !has_match(texts[j], marker_passed(id@)),
    ensures
        !status_map(texts, rs, pats).dom().contains(id@),
        status_line(status_map(texts, rs, pats), id, name) == "- _"@ + trimmed(id@) + "_ - "@
            + name@ + ": "@ + ":warning:"@,
        err_lines(status_map(texts, rs, pats), id) == Seq::<Seq<char>>::empty(),
{
    lemma_scan_no_marker(Map::empty(), texts, rs, pats, id@);
}

/// A key never touched stays out of the map under the whole scan.
proof fn lemma_scan_no_marker(
    m: Map<Seq<char>, StatusRec>,
    texts: Seq<Seq<char>>,
    rs: Seq<(String, Requirement)>,
    pats: Seq<regex::Regex>,
    k: Seq<char>,
)
    requires
        forall|j: int|
            0 <= j < texts.len() ==> !has_match(#[trigger] texts[j], marker_failed(k))
                && !has_match(texts[j], marker_passed(k)),
        !m.dom().contains(k),
    ensures
        !scan_texts(m, texts, rs, pats).dom().contains(k),
    decreases texts.len(),
{
    if texts.len() > 0 {
        lemma_upd_reqs_no_marker(m, texts[0], rs, pats, k);
        assert(forall|j: int|
            0 <= j < texts.drop_first().len() ==> texts.drop_first()[j] == texts[j + 1]);
        lemma_scan_no_marker(upd_reqs(m, texts[0], rs, pats), texts.drop_first(), rs, pats, k);
    }
}

/// Pruning. A topic under which no requirement identifier — its own or any
/// of its subtopics', at any depth — matches any pattern produces no report
/// lines at all: alone it reports nothing, and inside a topic list it adds
/// nothing to the list's report.
pub proof fn lemma_pruned_topic_silent(
    texts: Seq<Seq<char>>,
    id: String,
    t: Topic,
    rest: Seq<(String, Topic)>,
    pats: Seq<regex::Regex>,
    level: nat,
)
    requires
        !reqs_match(t.requirements@, pats),
        !topics_match(t.subtopics@, pats),
    ensures
        check_topics_spec(texts, seq![(id, t)], pats, level) == Seq::<Seq<char>>::empty(),
        check_list(texts, seq![(id, t)] + rest, pats, level) == check_list(
            texts,
            rest,
            pats,
            level,
        ),
{
    let one = seq![(id, t)];
    assert(one.drop_first() =~= Seq::<(String, Topic)>::empty());
    assert(one[0] == (id, t));
    assert(!topics_match(Seq::<(String, Topic)>::empty(), pats));
    assert(!topics_match(one, pats));
    let cons = seq![(id, t)] + rest;
    assert(cons[0] == (id, t));
    assert(cons.drop_first() =~= rest);
    assert(check_list(texts, cons, pats, level) == Seq::<Seq<char>>::empty() + check_list(
        texts,
        cons.drop_first(),
        pats,
        level,
    ));
    assert(Seq::<Seq<char>>::empty() + check_list(texts, rest, pats, level) =~~= check_list(
        texts,
        rest,
        pats,
        level,
    ));
}

} // verus!
