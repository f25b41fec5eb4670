//! The document renderer: a recursive walk of the tree producing an ordered
//! sequence of text lines (headings, requirement bullets, definitions,
//! config-default blocks), joined by newlines and run through a global
//! keyword-emphasis pass.

use vstd::prelude::*;

use crate::model::{
    lemma_topics_height_at, ConfigDefault, Definition, Project, Requirement, Topic,
    topics_height,
};
use crate::text::{
    char_repeat, emphasized, join_lines, join_nl, push_repeat, strs_view, trim_str, trimmed,
};
use crate::version::version_text;

verus! {

/// The fixed boilerplate notice on the normative key words.
pub open spec fn word_description() -> Seq<char> {
    "The key words \"MUST\", \"MUST NOT\", \"REQUIRED\", \"SHALL\", \"SHALL NOT\", \"SHOULD\", \"SHOULD NOT\", \"RECOMMENDED\",\n\"MAY\", and \"OPTIONAL\" in this document are to be interpreted as described in\n[RFC 2119](https://datatracker.ietf.org/doc/html/rfc2119).\n"@
}

/// The boilerplate notice as text.
pub fn word_description_text() -> (r: &'static str)
    ensures
        r@ == word_description(),
{
    "The key words \"MUST\", \"MUST NOT\", \"REQUIRED\", \"SHALL\", \"SHALL NOT\", \"SHOULD\", \"SHOULD NOT\", \"RECOMMENDED\",\n\"MAY\", and \"OPTIONAL\" in this document are to be interpreted as described in\n[RFC 2119](https://datatracker.ietf.org/doc/html/rfc2119).\n"
}

/// One indented bullet line per free-text note, each trimmed.
pub open spec fn info_lines(infos: Seq<String>) -> Seq<Seq<char>> {
    infos.map_values(|s: String| "  - "@ + trimmed(s@))
}

/// A requirement's bullet line: identifier, name and description, trimmed.
pub open spec fn req_line(id: String, r: Requirement) -> Seq<char> {
    "- **_"@ + trimmed(id@) + "_ - "@ + trimmed(r.name@) + ":** "@ + trimmed(r.description@)
}

/// The bullet lines of a requirement list, each followed by its notes.
pub open spec fn req_bullets(rs: Seq<(String, Requirement)>) -> Seq<Seq<char>>
    decreases rs.len(),
{
    if rs.len() == 0 {
        Seq::empty()
    } else {
        seq![req_line(rs[0].0, rs[0].1)] + info_lines(rs[0].1.additional_info@) + req_bullets(
            rs.drop_first(),
        )
    }
}

/// A topic heading: `level` heading markers, the trimmed identifier and the
/// topic name.
pub open spec fn topic_heading(level: nat, id: String, name: Seq<char>) -> Seq<char> {
    char_repeat('#', level) + " _"@ + trimmed(id@) + "_ - "@ + name
}

/// The rendered lines of a topic list at heading depth `level`: for each
/// topic in order, its heading, its requirement bullets followed by a blank
/// separator if it has requirements, then its subtopics one level deeper
/// followed by a blank separator if it has subtopics.
pub open spec fn render_topics(ts: Seq<(String, Topic)>, level: nat) -> Seq<Seq<char>>
    decreases ts,
{
    if ts.len() == 0 {
        Seq::empty()
    } else {
        seq![topic_heading(level, ts[0].0, trimmed(ts[0].1.name@))] + (
        if ts[0].1.requirements@.len() > 0 {
            req_bullets(ts[0].1.requirements@) + seq![Seq::<char>::empty()]
        } else {
            Seq::empty()
        }) + (if ts[0].1.subtopics@.len() > 0 {
            render_topics(ts[0].1.subtopics@, level + 1) + seq![Seq::<char>::empty()]
        } else {
            Seq::empty()
        }) + render_topics(ts.drop_first(), level)
    }
}

/// A definition's bullet line.
pub open spec fn def_line(d: Definition) -> Seq<char> {
    "- "@ + trimmed(d.name@) + ": "@ + trimmed(d.value@)
}

/// The bullet lines of the definition list, each followed by its notes.
pub open spec fn def_lines(ds: Seq<Definition>) -> Seq<Seq<char>>
    decreases ds.len(),
{
    if ds.len() == 0 {
        Seq::empty()
    } else {
        seq![def_line(ds[0])] + info_lines(ds[0].additional_info@) + def_lines(ds.drop_first())
    }
}

/// The strings joined by `", "`.
pub open spec fn join_commas(vs: Seq<String>) -> Seq<char>
    decreases vs.len(),
{
    if vs.len() == 0 {
        Seq::empty()
    } else if vs.len() == 1 {
        vs[0]@
    } else {
        vs[0]@ + ", "@ + join_commas(vs.drop_first())
    }
}

/// The trailing hint of a config-default line: a space and the trimmed
/// hint, or nothing.
pub open spec fn hint_part(h: Option<String>) -> Seq<char> {
    match h {
        Some(s) => " "@ + trimmed(s@),
        None => Seq::empty(),
    }
}

/// The block of lines for one config default.
pub open spec fn cfg_block(d: ConfigDefault) -> Seq<Seq<char>> {
    seq!["- **"@ + trimmed(d.name@) + "**"@, "  - Type: "@ + trimmed(d.typ@)] + (match d.unit {
        Some(u) => seq!["  - Unit: "@ + trimmed(u@)],
        None => Seq::empty(),
    }) + (match d.valid_values {
        Some(vs) => seq!["  - Valid Values: _"@ + trimmed(join_commas(vs@)) + "_"@],
        None => Seq::empty(),
    }) + (match d.default_value {
        Some(dv) => seq!["  - Default Value: _"@ + trimmed(dv@) + "_"@ + hint_part(d.hint)],
        None => seq![
            "  - **Required**: This value **_MUST_** be provided as a start parameter."@
                + hint_part(d.hint),
        ],
    }) + seq![Seq::<char>::empty()]
}

/// The lines of the config-default list.
pub open spec fn cfg_lines(ds: Seq<ConfigDefault>) -> Seq<Seq<char>>
    decreases ds.len(),
{
    if ds.len() == 0 {
        Seq::empty()
    } else {
        cfg_block(ds[0]) + cfg_lines(ds.drop_first())
    }
}

/// The whole rendered document, as an ordered sequence of lines: title,
/// optional table-of-contents marker, boilerplate notice, version line,
/// description, then the topic, definition and config-default sections,
/// each only if it has content.
pub open spec fn render_project(p: Project, add_toc: bool) -> Seq<Seq<char>> {
    seq!["# Requirements for "@ + trimmed(p.name@), Seq::<char>::empty()] + (if add_toc {
        seq!["[[_TOC_]]"@, Seq::<char>::empty()]
    } else {
        Seq::empty()
    }) + seq![
        trimmed(word_description()),
        Seq::<char>::empty(),
        "**VERSION: "@ + version_text(p.version) + "**"@,
        Seq::<char>::empty(),
        "## Description"@,
        trimmed(p.description@),
        Seq::<char>::empty(),
    ] + (if p.topics@.len() > 0 {
        seq!["## Requirements"@] + render_topics(p.topics@, 3)
    } else {
        Seq::empty()
    }) + (if p.definitions@.len() > 0 {
        seq!["## Definitions"@] + def_lines(p.definitions@) + seq![Seq::<char>::empty()]
    } else {
        Seq::empty()
    }) + (if p.config_defaults@.len() > 0 {
        seq!["## Config Defaults"@] + cfg_lines(p.config_defaults@)
    } else {
        Seq::empty()
    })
}

/// A line is a heading when it begins with the heading marker.
pub open spec fn is_heading(l: Seq<char>) -> bool {
    l.len() > 0 && l[0] == '#'
}

/// The heading test, as a function value for filtering.
pub open spec fn heading_pred() -> spec_fn(Seq<char>) -> bool {
    |l: Seq<char>| is_heading(l)
}

/// The tree's headings in insertion order: each topic's heading rendered at
/// `level`, then its subtopics' headings at `level + 1`, then the following
/// topics' at `level`.
pub open spec fn heading_outline(ts: Seq<(String, Topic)>, level: nat) -> Seq<Seq<char>>
    decreases ts,
{
    if ts.len() == 0 {
        Seq::empty()
    } else {
        seq![topic_heading(level, ts[0].0, trimmed(ts[0].1.name@))] + heading_outline(
            ts[0].1.subtopics@,
            level + 1,
        ) + heading_outline(ts.drop_first(), level)
    }
}

/// How many heading markers a line begins with.
pub open spec fn leading_marks(l: Seq<char>) -> nat
    decreases l.len(),
{
    if l.len() > 0 && l[0] == '#' {
        1 + leading_marks(l.drop_first())
    } else {
        0
    }
}

/// The heading depth each heading of the outline carries: `level` for each
/// topic of the list, one more for each level of nesting below it.
pub open spec fn depth_outline(ts: Seq<(String, Topic)>, level: nat) -> Seq<nat>
    decreases ts,
{
    if ts.len() == 0 {
        Seq::empty()
    } else {
        seq![level] + depth_outline(ts[0].1.subtopics@, level + 1) + depth_outline(
            ts.drop_first(),
            level,
        )
    }
}

/// Leading markers of a marker run followed by anything that is not a
/// marker: exactly the run's length.
proof fn lemma_leading_marks_run(n: nat, rest: Seq<char>)
    requires
        rest.len() == 0 || rest[0] != '#',
    ensures
        leading_marks(char_repeat('#', n) + rest) == n,
    decreases n,
{
    let l = char_repeat('#', n) + rest;
    if n == 0 {
        assert(l =~= rest);
    } else {
        assert(l[0] == '#');
        assert(l.drop_first() =~= char_repeat('#', (n - 1) as nat) + rest);
        lemma_leading_marks_run((n - 1) as nat, rest);
    }
}

/// A topic heading rendered at `level` begins with exactly `level` heading
/// markers.
pub proof fn lemma_heading_depth(level: nat, id: String, name: Seq<char>)
    ensures
        leading_marks(topic_heading(level, id, name)) == level,
        level >= 1 ==> is_heading(topic_heading(level, id, name)),
{
    reveal_strlit(" _");
    let rest = " _"@ + trimmed(id@) + "_ - "@ + name;
    assert(rest[0] == ' ');
    assert(topic_heading(level, id, name) =~= char_repeat('#', level) + rest);
    lemma_leading_marks_run(level, rest);
    if level >= 1 {
        assert(topic_heading(level, id, name)[0] == '#');
    }
}

/// No filtered element where no element passes.
proof fn lemma_filter_all_none(s: Seq<Seq<char>>)
    requires
        forall|i: int| 0 <= i < s.len() ==> !is_heading(#[trigger] s[i]),
    ensures
        s.filter(heading_pred()) == Seq::<Seq<char>>::empty(),
    decreases s.len(),
{
    reveal(Seq::filter);
    if s.len() > 0 {
        lemma_filter_all_none(s.drop_last());
    }
}

/// No note line is a heading.
proof fn lemma_info_lines_no_heading(infos: Seq<String>)
    ensures
        forall|i: int| 0 <= i < info_lines(infos).len() ==> !is_heading(#[trigger] info_lines(
            infos,
        )[i]),
{
    reveal_strlit("  - ");
    assert forall|i: int| 0 <= i < info_lines(infos).len() implies !is_heading(
        #[trigger] info_lines(infos)[i],
    ) by {
        assert(info_lines(infos)[i] == "  - "@ + trimmed(infos[i]@));
        assert(info_lines(infos)[i][0] == ' ');
    }
}

/// No requirement bullet or note line is a heading.
proof fn lemma_req_bullets_no_heading(rs: Seq<(String, Requirement)>)
    ensures
        forall|i: int| 0 <= i < req_bullets(rs).len() ==> !is_heading(#[trigger] req_bullets(
            rs,
        )[i]),
    decreases rs.len(),
{
    reveal_strlit("- **_");
    if rs.len() > 0 {
        lemma_req_bullets_no_heading(rs.drop_first());
        lemma_info_lines_no_heading(rs[0].1.additional_info@);
        let hd = seq![req_line(rs[0].0, rs[0].1)];
        let infos = info_lines(rs[0].1.additional_info@);
        let tail = req_bullets(rs.drop_first());
        assert(req_line(rs[0].0, rs[0].1)[0] == '-');
        assert forall|i: int| 0 <= i < req_bullets(rs).len() implies !is_heading(
            #[trigger] req_bullets(rs)[i],
        ) by {
            assert(req_bullets(rs) == hd + infos + tail);
            if i < 1 {
                assert(req_bullets(rs)[i] == req_line(rs[0].0, rs[0].1));
            } else if i < 1 + infos.len() {
                assert(req_bullets(rs)[i] == infos[i - 1]);
            } else {
                assert(req_bullets(rs)[i] == tail[i - 1 - infos.len()]);
            }
        }
    }
}

/// Order preservation and heading depth. The heading lines of the rendered
/// topic section are exactly the tree's headings, in insertion order,
/// recursively; and each carries exactly its topic's depth in markers:
/// `level` at the top, one more per nesting level.
#[verifier::rlimit(100)]
pub proof fn lemma_render_topics_order(ts: Seq<(String, Topic)>, level: nat)
    requires
        level >= 1,
    ensures
        render_topics(ts, level).filter(heading_pred()) == heading_outline(ts, level),
        heading_outline(ts, level).map_values(|l: Seq<char>| leading_marks(l)) == depth_outline(
            ts,
            level,
        ),
        render_topics(ts, level).filter(heading_pred()).map_values(
            |l: Seq<char>| leading_marks(l),
        ) == depth_outline(ts, level),
    decreases ts,
{
    broadcast use Seq::filter_distributes_over_add;

    reveal(Seq::filter);
    let pred = heading_pred();
    if ts.len() == 0 {
        assert(render_topics(ts, level).filter(pred) =~= Seq::<Seq<char>>::empty());
        assert(heading_outline(ts, level).map_values(|l: Seq<char>| leading_marks(l)) =~=
            depth_outline(ts, level));
    } else {
        let hd = seq![topic_heading(level, ts[0].0, trimmed(ts[0].1.name@))];
        let reqs_part = if ts[0].1.requirements@.len() > 0 {
            req_bullets(ts[0].1.requirements@) + seq![Seq::<char>::empty()]
        } else {
            Seq::<Seq<char>>::empty()
        };
        let subs_part = if ts[0].1.subtopics@.len() > 0 {
            render_topics(ts[0].1.subtopics@, level + 1) + seq![Seq::<char>::empty()]
        } else {
            Seq::<Seq<char>>::empty()
        };
        let tail = render_topics(ts.drop_first(), level);
        assert(render_topics(ts, level) == hd + reqs_part + subs_part + tail);
        lemma_heading_depth(level, ts[0].0, trimmed(ts[0].1.name@));
        assert(hd.filter(pred) =~= hd) by {
            assert(hd.drop_last() =~= Seq::<Seq<char>>::empty());
        }
        lemma_req_bullets_no_heading(ts[0].1.requirements@);
        assert(forall|i: int| 0 <= i < reqs_part.len() ==> !is_heading(#[trigger] reqs_part[i]));
        lemma_filter_all_none(reqs_part);
        lemma_render_topics_order(ts[0].1.subtopics@, level + 1);
        lemma_render_topics_order(ts.drop_first(), level);
        let blank = seq![Seq::<char>::empty()];
        lemma_filter_all_none(blank);
        assert(subs_part.filter(pred) == heading_outline(ts[0].1.subtopics@, level + 1)) by {
            if ts[0].1.subtopics@.len() == 0 {
                assert(subs_part.filter(pred) =~= Seq::<Seq<char>>::empty());
                assert(heading_outline(ts[0].1.subtopics@, level + 1) =~= Seq::<
                    Seq<char>,
                >::empty());
            } else {
                assert(subs_part.filter(pred) =~= heading_outline(
                    ts[0].1.subtopics@,
                    level + 1,
                ));
            }
        }
        assert(render_topics(ts, level).filter(pred) =~= heading_outline(ts, level));
        let f = |l: Seq<char>| leading_marks(l);
        assert(heading_outline(ts, level).map_values(f) =~= depth_outline(ts, level)) by {
            let ho = heading_outline(ts, level);
            let sub_ho = heading_outline(ts[0].1.subtopics@, level + 1);
            let tail_ho = heading_outline(ts.drop_first(), level);
            assert(ho == hd + sub_ho + tail_ho);
            assert forall|i: int| 0 <= i < ho.len() implies ho.map_values(f)[i] == depth_outline(
                ts,
                level,
            )[i] by {
                let sub_d = depth_outline(ts[0].1.subtopics@, level + 1);
                let tail_d = depth_outline(ts.drop_first(), level);
                assert(depth_outline(ts, level) == seq![level] + sub_d + tail_d);
                assert(sub_ho.map_values(f) == sub_d);
                assert(tail_ho.map_values(f) == tail_d);
                if i < 1 {
                    assert(ho[i] == topic_heading(level, ts[0].0, trimmed(ts[0].1.name@)));
                } else if i < 1 + sub_ho.len() {
                    assert(ho[i] == sub_ho[i - 1]);
                    assert(sub_ho.map_values(f)[i - 1] == f(sub_ho[i - 1]));
                    assert(depth_outline(ts, level)[i] == sub_d[i - 1]);
                } else {
                    assert(ho[i] == tail_ho[i - 1 - sub_ho.len()]);
                    assert(tail_ho.map_values(f)[i - 1 - sub_ho.len()] == f(
                        tail_ho[i - 1 - sub_ho.len()],
                    ));
                    assert(depth_outline(ts, level)[i] == tail_d[i - 1 - sub_ho.len()]);
                }
            }
        }
    }
}

/// Appends the note lines of one requirement or definition.
pub(crate) fn push_infos(out: &mut Vec<String>, infos: &Vec<String>)
    ensures
        strs_view(final(out)@) == strs_view(old(out)@) + info_lines(infos@),
{
    let mut i: usize = 0;
    while i < infos.len()
        invariant
            0 <= i <= infos@.len(),
            strs_view(out@) =~~= strs_view(old(out)@) + info_lines(infos@.take(i as int)),
        decreases infos@.len() - i,
    {
        let ghost out0 = strs_view(out@);
        let mut line = String::new();
        line.append("  - ");
        line.append(trim_str(infos[i].as_str()));
        assert(line@ =~= "  - "@ + trimmed(infos@[i as int]@));
        out.push(line);
        assert(strs_view(out@) =~~= out0 + seq![("  - "@ + trimmed(infos@[i as int]@))]);
        assert(infos@.take(i + 1) =~= infos@.take(i as int).push(infos@[i as int]));
        assert(info_lines(infos@.take(i + 1)) =~~= info_lines(infos@.take(i as int)) + seq![(
        "  - "@ + trimmed(infos@[i as int]@))]);
        assert(strs_view(out@) =~~= strs_view(old(out)@) + info_lines(infos@.take(i + 1)));
        i = i + 1;
    }
    assert(infos@.take(infos@.len() as int) =~= infos@);
}

/// Appends the bullet lines of a topic's requirement list.
fn add_requirements(out: &mut Vec<String>, reqs: &Vec<(String, Requirement)>)
    ensures
        strs_view(final(out)@) == strs_view(old(out)@) + req_bullets(reqs@),
{
    let mut i: usize = 0;
    assert(reqs@.skip(0) =~= reqs@);
    while i < reqs.len()
        invariant
            0 <= i <= reqs@.len(),
            strs_view(old(out)@) + req_bullets(reqs@) =~~= strs_view(out@) + req_bullets(
                reqs@.skip(i as int),
            ),
        decreases reqs@.len() - i,
    {
        let ghost rest = reqs@.skip(i as int);
        let ghost out0 = strs_view(out@);
        let mut line = String::new();
        line.append("- **_");
        line.append(trim_str(reqs[i].0.as_str()));
        line.append("_ - ");
        line.append(trim_str(reqs[i].1.name.as_str()));
        line.append(":** ");
        line.append(trim_str(reqs[i].1.description.as_str()));
        assert(line@ == req_line(reqs@[i as int].0, reqs@[i as int].1));
        out.push(line);
        push_infos(out, &reqs[i].1.additional_info);
        proof {
            assert(rest[0] == reqs@[i as int]);
            assert(rest.drop_first() =~= reqs@.skip(i + 1));
            assert(req_bullets(rest) == seq![req_line(rest[0].0, rest[0].1)] + info_lines(
                rest[0].1.additional_info@,
            ) + req_bullets(reqs@.skip(i + 1)));
            assert(strs_view(out@) =~~= out0 + seq![req_line(rest[0].0, rest[0].1)] + info_lines(
                rest[0].1.additional_info@,
            ));
            assert(strs_view(out@) + req_bullets(reqs@.skip(i + 1)) =~~= out0 + req_bullets(rest));
        }
        i = i + 1;
    }
    assert(req_bullets(reqs@.skip(reqs@.len() as int)) =~= Seq::<Seq<char>>::empty());
    assert(strs_view(out@) + Seq::<Seq<char>>::empty() =~= strs_view(out@));
    assert(strs_view(out@) =~~= strs_view(old(out)@) + req_bullets(reqs@));
}

/// Appends the rendered lines of a topic list at heading depth `level`.
fn add_topics(out: &mut Vec<String>, topics: &Vec<(String, Topic)>, level: usize)
    requires
        level + topics_height(topics@) <= usize::MAX,
        level >= 1,
    ensures
        strs_view(final(out)@) == strs_view(old(out)@) + render_topics(topics@, level as nat),
    decreases topics@,
{
    let mut i: usize = 0;
    assert(topics@.skip(0) =~= topics@);
    while i < topics.len()
        invariant
            0 <= i <= topics@.len(),
            level >= 1,
            level + topics_height(topics@) <= usize::MAX,
            strs_view(old(out)@) + render_topics(topics@, level as nat) =~~= strs_view(out@)
                + render_topics(topics@.skip(i as int), level as nat),
        decreases topics@.len() - i,
    {
        let ghost rest = topics@.skip(i as int);
        let ghost out0 = strs_view(out@);
        proof {
            assert(rest[0] == topics@[i as int]);
            assert(rest.drop_first() =~= topics@.skip(i + 1));
        }
        let topic = &topics[i].1;
        let mut line = String::new();
        push_repeat(&mut line, '#', level);
        line.append(" _");
        line.append(trim_str(topics[i].0.as_str()));
        line.append("_ - ");
        line.append(trim_str(topic.name.as_str()));
        assert(line@ =~= topic_heading(level as nat, topics@[i as int].0, trimmed(
            topics@[i as int].1.name@,
        )));
        out.push(line);
        let ghost with_heading = strs_view(out@);
        assert(with_heading =~~= out0 + seq![topic_heading(level as nat, rest[0].0, trimmed(
            rest[0].1.name@,
        ))]);
        if topic.requirements.len() > 0 {
            assert(topic.requirements@ == rest[0].1.requirements@);
            add_requirements(out, &topic.requirements);
            let ghost after_reqs = strs_view(out@);
            assert(after_reqs =~~= with_heading + req_bullets(rest[0].1.requirements@));
            out.push(String::new());
            assert(strs_view(out@) =~~= after_reqs.push(Seq::<char>::empty()));
            assert(strs_view(out@) =~~= with_heading + (req_bullets(rest[0].1.requirements@)
                + seq![Seq::<char>::empty()]));
        }
        let ghost with_reqs = strs_view(out@);
        assert(with_reqs =~~= with_heading + (if rest[0].1.requirements@.len() > 0 {
            req_bullets(rest[0].1.requirements@) + seq![Seq::<char>::empty()]
        } else {
            Seq::<Seq<char>>::empty()
        }));
        if topic.subtopics.len() > 0 {
            proof {
                lemma_topics_height_at(topics@, i as int);
                assert(decreases_to!(topics@ => topics@[i as int].1.subtopics@));
            }
            add_topics(out, &topic.subtopics, level + 1);
            let ghost after_sub = strs_view(out@);
            assert(after_sub =~~= with_reqs + render_topics(
                rest[0].1.subtopics@,
                (level + 1) as nat,
            ));
            out.push(String::new());
            assert(strs_view(out@) =~~= after_sub.push(Seq::<char>::empty()));
            assert(strs_view(out@) =~~= with_reqs + (render_topics(
                rest[0].1.subtopics@,
                (level + 1) as nat,
            ) + seq![Seq::<char>::empty()]));
        }
        proof {
            let hd = seq![topic_heading(level as nat, rest[0].0, trimmed(rest[0].1.name@))];
            let reqs_part = if rest[0].1.requirements@.len() > 0 {
                req_bullets(rest[0].1.requirements@) + seq![Seq::<char>::empty()]
            } else {
                Seq::<Seq<char>>::empty()
            };
            let subs_part = if rest[0].1.subtopics@.len() > 0 {
                render_topics(rest[0].1.subtopics@, (level + 1) as nat) + seq![Seq::<
                    char,
                >::empty()]
            } else {
                Seq::<Seq<char>>::empty()
            };
            assert(render_topics(rest, level as nat) == hd + reqs_part + subs_part
                + render_topics(topics@.skip(i + 1), level as nat));
            assert(strs_view(out@) =~~= out0 + hd + reqs_part + subs_part);
            assert(strs_view(out@) + render_topics(topics@.skip(i + 1), level as nat) =~~= out0
                + render_topics(rest, level as nat));
        }
        i = i + 1;
    }
    assert(render_topics(topics@.skip(topics@.len() as int), level as nat) =~= Seq::<
        Seq<char>,
    >::empty());
    assert(strs_view(out@) + Seq::<Seq<char>>::empty() =~= strs_view(out@));
    assert(strs_view(out@) =~~= strs_view(old(out)@) + render_topics(topics@, level as nat));
}

/// `vs.join(", ")`.
fn join_commas_exec(vs: &Vec<String>) -> (r: String)
    ensures
        r@ == join_commas(vs@),
{
    let mut out = String::new();
    if vs.len() == 0 {
        return out;
    }
    let mut i: usize = vs.len() - 1;
    let mut tail = String::new();
    tail.append(vs[i].as_str());
    assert(tail@ == join_commas(vs@.skip(i as int))) by {
        assert(vs@.skip(i as int).len() == 1);
        assert(vs@.skip(i as int)[0] == vs@[i as int]);
    }
    while i > 0
        invariant
            0 <= i < vs@.len(),
            tail@ == join_commas(vs@.skip(i as int)),
        decreases i,
    {
        i = i - 1;
        let mut next = String::new();
        next.append(vs[i].as_str());
        next.append(", ");
        next.append(tail.as_str());
        proof {
            let rest = vs@.skip(i as int);
            assert(rest[0] == vs@[i as int]);
            assert(rest.drop_first() =~= vs@.skip(i + 1));
            if rest.len() == 1 {
                assert(false);
            }
            assert(join_commas(rest) == rest[0]@ + ", "@ + join_commas(vs@.skip(i + 1)));
        }
        tail = next;
    }
    assert(vs@.skip(0) =~= vs@);
    tail
}

/// Appends the definition section's bullet lines.
fn add_definitions(out: &mut Vec<String>, ds: &Vec<Definition>)
    ensures
        strs_view(final(out)@) == strs_view(old(out)@) + def_lines(ds@),
{
    let mut i: usize = 0;
    assert(ds@.skip(0) =~= ds@);
    while i < ds.len()
        invariant
            0 <= i <= ds@.len(),
            strs_view(old(out)@) + def_lines(ds@) =~~= strs_view(out@) + def_lines(
                ds@.skip(i as int),
            ),
        decreases ds@.len() - i,
    {
        let ghost rest = ds@.skip(i as int);
        let ghost out0 = strs_view(out@);
        let mut line = String::new();
        line.append("- ");
        line.append(trim_str(ds[i].name.as_str()));
        line.append(": ");
        line.append(trim_str(ds[i].value.as_str()));
        assert(line@ == def_line(ds@[i as int]));
        out.push(line);
        push_infos(out, &ds[i].additional_info);
        proof {
            assert(rest[0] == ds@[i as int]);
            assert(rest.drop_first() =~= ds@.skip(i + 1));
            assert(def_lines(rest) == seq![def_line(rest[0])] + info_lines(
                rest[0].additional_info@,
            ) + def_lines(ds@.skip(i + 1)));
            assert(strs_view(out@) =~~= out0 + seq![def_line(rest[0])] + info_lines(
                rest[0].additional_info@,
            ));
            assert(strs_view(out@) + def_lines(ds@.skip(i + 1)) =~~= out0 + def_lines(rest));
        }
        i = i + 1;
    }
    assert(def_lines(ds@.skip(ds@.len() as int)) =~= Seq::<Seq<char>>::empty());
    assert(strs_view(out@) + Seq::<Seq<char>>::empty() =~= strs_view(out@));
    assert(strs_view(out@) =~~= strs_view(old(out)@) + def_lines(ds@));
}

/// Appends the config-default section's lines.
fn add_config_defaults(out: &mut Vec<String>, ds: &Vec<ConfigDefault>)
    ensures
        strs_view(final(out)@) == strs_view(old(out)@) + cfg_lines(ds@),
{
    let mut i: usize = 0;
    assert(ds@.skip(0) =~= ds@);
    while i < ds.len()
        invariant
            0 <= i <= ds@.len(),
            strs_view(old(out)@) + cfg_lines(ds@) =~~= strs_view(out@) + cfg_lines(
                ds@.skip(i as int),
            ),
        decreases ds@.len() - i,
    {
        let ghost rest = ds@.skip(i as int);
        let ghost out0 = strs_view(out@);
        let d = &ds[i];
        let mut line = String::new();
        line.append("- **");
        line.append(trim_str(d.name.as_str()));
        line.append("**");
        out.push(line);
        let mut tline = String::new();
        tline.append("  - Type: ");
        tline.append(trim_str(d.typ.as_str()));
        out.push(tline);
        match &d.unit {
            Some(u) => {
                let mut uline = String::new();
                uline.append("  - Unit: ");
                uline.append(trim_str(u.as_str()));
                out.push(uline);
            },
            None => {},
        }
        match &d.valid_values {
            Some(vs) => {
                let joined = join_commas_exec(vs);
                let mut vline = String::new();
                vline.append("  - Valid Values: _");
                vline.append(trim_str(joined.as_str()));
                vline.append("_");
                out.push(vline);
            },
            None => {},
        }
        match &d.default_value {
            Some(dv) => {
                let mut dline = String::new();
                dline.append("  - Default Value: _");
                dline.append(trim_str(dv.as_str()));
                dline.append("_");
                match &d.hint {
                    Some(h) => {
                        dline.append(" ");
                        dline.append(trim_str(h.as_str()));
                    },
                    None => {},
                }
                out.push(dline);
            },
            None => {
                let mut rline = String::new();
                rline.append(
                    "  - **Required**: This value **_MUST_** be provided as a start parameter.",
                );
                match &d.hint {
                    Some(h) => {
                        rline.append(" ");
                        rline.append(trim_str(h.as_str()));
                    },
                    None => {},
                }
                out.push(rline);
            },
        }
        out.push(String::new());
        proof {
            assert(rest[0] == ds@[i as int]);
            assert(rest.drop_first() =~= ds@.skip(i + 1));
            assert(cfg_lines(rest) == cfg_block(rest[0]) + cfg_lines(ds@.skip(i + 1)));
            assert(strs_view(out@) =~~= out0 + cfg_block(rest[0]));
            assert(strs_view(out@) + cfg_lines(ds@.skip(i + 1)) =~~= out0 + cfg_lines(rest));
        }
        i = i + 1;
    }
    assert(cfg_lines(ds@.skip(ds@.len() as int)) =~= Seq::<Seq<char>>::empty());
    assert(strs_view(out@) + Seq::<Seq<char>>::empty() =~= strs_view(out@));
    assert(strs_view(out@) =~~= strs_view(old(out)@) + cfg_lines(ds@));
}

/// Renders the whole document as an ordered sequence of lines.
pub fn render_lines(p: &Project, add_toc: bool) -> (r: Vec<String>)
    requires
        3 + topics_height(p.topics@) <= usize::MAX,
    ensures
        strs_view(r@) == render_project(*p, add_toc),
{
    let mut out: Vec<String> = Vec::new();
    let mut title = String::new();
    title.append("# Requirements for ");
    title.append(trim_str(p.name.as_str()));
    out.push(title);
    out.push(String::new());
    if add_toc {
        let mut toc = String::new();
        toc.append("[[_TOC_]]");
        out.push(toc);
        out.push(String::new());
    }
    let mut notice = String::new();
    notice.append(trim_str(word_description_text()));
    out.push(notice);
    out.push(String::new());
    let mut vline = String::new();
    vline.append("**VERSION: ");
    vline.append(p.version.text().as_str());
    vline.append("**");
    out.push(vline);
    out.push(String::new());
    let mut dhead = String::new();
    dhead.append("## Description");
    out.push(dhead);
    let mut desc = String::new();
    desc.append(trim_str(p.description.as_str()));
    out.push(desc);
    out.push(String::new());
    let ghost intro = strs_view(out@);
    proof {
        assert(intro =~~= seq!["# Requirements for "@ + trimmed(p.name@), Seq::<char>::empty()]
            + (if add_toc {
            seq!["[[_TOC_]]"@, Seq::<char>::empty()]
        } else {
            Seq::<Seq<char>>::empty()
        }) + seq![
            trimmed(word_description()),
            Seq::<char>::empty(),
            "**VERSION: "@ + version_text(p.version) + "**"@,
            Seq::<char>::empty(),
            "## Description"@,
            trimmed(p.description@),
            Seq::<char>::empty(),
        ]);
    }
    if p.topics.len() > 0 {
        let mut rhead = String::new();
        rhead.append("## Requirements");
        out.push(rhead);
        add_topics(&mut out, &p.topics, 3);
    }
    let ghost with_topics = strs_view(out@);
    proof {
        assert(with_topics =~~= intro + (if p.topics@.len() > 0 {
            seq!["## Requirements"@] + render_topics(p.topics@, 3)
        } else {
            Seq::<Seq<char>>::empty()
        }));
    }
    if p.definitions.len() > 0 {
        let mut dshead = String::new();
        dshead.append("## Definitions");
        out.push(dshead);
        let ghost with_dhead = strs_view(out@);
        assert(with_dhead =~~= with_topics + seq!["## Definitions"@]);
        add_definitions(&mut out, &p.definitions);
        let ghost after_defs = strs_view(out@);
        assert(after_defs =~~= with_dhead + def_lines(p.definitions@));
        out.push(String::new());
        assert(strs_view(out@) =~~= after_defs.push(Seq::<char>::empty()));
    }
    let ghost with_defs = strs_view(out@);
    proof {
        assert(with_defs =~~= with_topics + (if p.definitions@.len() > 0 {
            seq!["## Definitions"@] + def_lines(p.definitions@) + seq![Seq::<char>::empty()]
        } else {
            Seq::<Seq<char>>::empty()
        }));
    }
    if p.config_defaults.len() > 0 {
        let mut chead = String::new();
        chead.append("## Config Defaults");
        out.push(chead);
        add_config_defaults(&mut out, &p.config_defaults);
    }
    proof {
        assert(strs_view(out@) =~~= with_defs + (if p.config_defaults@.len() > 0 {
            seq!["## Config Defaults"@] + cfg_lines(p.config_defaults@)
        } else {
            Seq::<Seq<char>>::empty()
        }));
        assert(strs_view(out@) =~~= render_project(*p, add_toc));
    }
    out
}

/// Renders the whole document as one text: the lines joined by newlines,
/// with the keyword-emphasis pass applied to the joined text.
pub fn to_markdown(p: &Project, add_toc: bool) -> (r: String)
    requires
        3 + topics_height(p.topics@) <= usize::MAX,
    ensures
        r@ == emphasized(join_nl(render_project(*p, add_toc))),
{
    let lines = render_lines(p, add_toc);
    let joined = join_lines(&lines);
    crate::text::emphasize(joined.as_str())
}

} // verus!
