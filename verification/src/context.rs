//! The narrative context document: five titled sections combined into one
//! stored text, and taken apart again when the editor reads them back.

use vstd::prelude::*;
use vstd::string::{StrSliceExecFns, StringExecFns};

verus! {

/// The pattern occurs at position `i` of the text, character for
/// character.
pub open spec fn spec_matches_exact(t: Seq<char>, p: Seq<char>, i: int) -> bool {
    forall|j: int| 0 <= j < p.len() ==> t[i + j] == #[trigger] p[j]
}

/// The least position at or after `from` where the pattern occurs.
pub open spec fn spec_find_from(t: Seq<char>, p: Seq<char>, from: int) -> Option<int>
    decreases t.len() - from,
{
    if from + p.len() > t.len() {
        None
    } else if spec_matches_exact(t, p, from) {
        Some(from)
    } else {
        spec_find_from(t, p, from + 1)
    }
}

/// What `char::is_whitespace` holds of a character: a property of the
/// character alone.
pub uninterp spec fn spec_is_whitespace(c: char) -> bool;

/// Relies on char::is_whitespace: whether the character is Unicode
/// whitespace, a function of the character alone.
#[verifier::external_body]
fn is_whitespace_char(c: char) -> (r: bool)
    ensures
        r == spec_is_whitespace(c),
{
    c.is_whitespace()
}

/// The text without its leading whitespace.
pub open spec fn spec_trim_start(s: Seq<char>) -> Seq<char>
    decreases s.len(),
{
    if s.len() > 0 && spec_is_whitespace(s.first()) {
        spec_trim_start(s.drop_first())
    } else {
        s
    }
}

/// The text without its trailing whitespace.
pub open spec fn spec_trim_end(s: Seq<char>) -> Seq<char>
    decreases s.len(),
{
    if s.len() > 0 && spec_is_whitespace(s.last()) {
        spec_trim_end(s.drop_last())
    } else {
        s
    }
}

/// The text without leading and trailing whitespace.
pub open spec fn spec_trim(s: Seq<char>) -> Seq<char> {
    spec_trim_end(spec_trim_start(s))
}

/// The kind of a context section.
#[derive(Clone, Copy, Debug, PartialEq, Eq, Structural)]
pub enum ContextType {
    World,
    Laws,
    Personality,
    Characters,
    Examples,
}

/// One incoming context part: which section it is and its text.
pub struct ContextPart {
    pub context_type: ContextType,
    pub content: String,
}

/// Mathematical shape of a context part.
pub ghost struct ContextPartView {
    pub context_type: ContextType,
    pub content: Seq<char>,
}

impl View for ContextPart {
    type V = ContextPartView;

    open spec fn view(&self) -> ContextPartView {
        ContextPartView { context_type: self.context_type, content: self.content@ }
    }
}

/// The views of a list of context parts.
pub open spec fn part_views(s: Seq<ContextPart>) -> Seq<ContextPartView> {
    s.map(|i: int, p: ContextPart| p@)
}

/// The five sections as one record, one text per section.
pub struct ContextSections {
    pub world: String,
    pub laws: String,
    pub personality: String,
    pub characters: String,
    pub examples: String,
}

/// The content of the last part of kind `t`, or empty if none: a later
/// submission of a section overrides an earlier one.
pub open spec fn spec_last_of(parts: Seq<ContextPartView>, t: ContextType) -> Seq<char>
    decreases parts.len(),
{
    if parts.len() == 0 {
        Seq::<char>::empty()
    } else if parts.last().context_type == t {
        parts.last().content
    } else {
        spec_last_of(parts.drop_last(), t)
    }
}

/// Collect the incoming parts into one record per section, the last
/// submission of each kind winning.
pub fn collect_parts(parts: &Vec<ContextPart>) -> (r: ContextSections)
    ensures
        r.world@ == spec_last_of(part_views(parts@), ContextType::World),
        r.laws@ == spec_last_of(part_views(parts@), ContextType::Laws),
        r.personality@ == spec_last_of(part_views(parts@), ContextType::Personality),
        r.characters@ == spec_last_of(part_views(parts@), ContextType::Characters),
        r.examples@ == spec_last_of(part_views(parts@), ContextType::Examples),
{
    let mut r = ContextSections {
        world: String::new(),
        laws: String::new(),
        personality: String::new(),
        characters: String::new(),
        examples: String::new(),
    };
    let n = parts.len();
    let mut i: usize = 0;
    while i < n
        invariant
            i <= n,
            n == parts@.len(),
            r.world@ == spec_last_of(part_views(parts@).take(i as int), ContextType::World),
            r.laws@ == spec_last_of(part_views(parts@).take(i as int), ContextType::Laws),
            r.personality@ == spec_last_of(
                part_views(parts@).take(i as int),
                ContextType::Personality,
            ),
            r.characters@ == spec_last_of(
                part_views(parts@).take(i as int),
                ContextType::Characters,
            ),
            r.examples@ == spec_last_of(part_views(parts@).take(i as int), ContextType::Examples),
        decreases n - i,
    {
        proof {
            let pv = part_views(parts@);
            assert(pv.take(i + 1).drop_last() =~= pv.take(i as int));
            assert(pv.take(i + 1).last() == pv[i as int]);
        }
        let p = &parts[i];
        match p.context_type {
            ContextType::World => {
                r.world = p.content.clone();
            },
            ContextType::Laws => {
                r.laws = p.content.clone();
            },
            ContextType::Personality => {
                r.personality = p.content.clone();
            },
            ContextType::Characters => {
                r.characters = p.content.clone();
            },
            ContextType::Examples => {
                r.examples = p.content.clone();
            },
        }
        i = i + 1;
    }
    proof {
        assert(part_views(parts@).take(n as int) =~= part_views(parts@));
    }
    r
}

/// The combined context document the sections are stored as.
pub open spec fn spec_combined_context(
    world: Seq<char>,
    laws: Seq<char>,
    personality: Seq<char>,
    characters: Seq<char>,
    examples: Seq<char>,
) -> Seq<char> {
    "Title: Threads of the Ankanet: A Dream Across Realities\n\nWorld Description\n"@ + world
        + "\n\nLaws of the Worlds\n"@ + laws + "\n\nPersonality and Behavior\n"@ + personality
        + "\n\nCharacters and Relations\n"@ + characters + "\n\nExamples of Flow Interactions\n"@
        + examples
}

/// Combine the five sections into the stored context document, each under
/// its fixed title.
pub fn combine_context(sections: &ContextSections) -> (r: String)
    ensures
        r@ == spec_combined_context(
            sections.world@,
            sections.laws@,
            sections.personality@,
            sections.characters@,
            sections.examples@,
        ),
{
    let mut r = String::from_str(
        "Title: Threads of the Ankanet: A Dream Across Realities\n\nWorld Description\n",
    );
    r.append(sections.world.as_str());
    r.append("\n\nLaws of the Worlds\n");
    r.append(sections.laws.as_str());
    r.append("\n\nPersonality and Behavior\n");
    r.append(sections.personality.as_str());
    r.append("\n\nCharacters and Relations\n");
    r.append(sections.characters.as_str());
    r.append("\n\nExamples of Flow Interactions\n");
    r.append(sections.examples.as_str());
    proof {
        assert(r@ =~= spec_combined_context(
            sections.world@,
            sections.laws@,
            sections.personality@,
            sections.characters@,
            sections.examples@,
        ));
    }
    r
}

/// Whether the pattern occurs at position `i`, character for character.
fn matches_exact_at(t: &str, p: &str, i: usize) -> (r: bool)
    requires
        i + p@.len() <= t@.len(),
        t@.len() <= usize::MAX,
    ensures
        r == spec_matches_exact(t@, p@, i as int),
{
    let pn = p.unicode_len();
    let mut j: usize = 0;
    while j < pn
        invariant
            i + pn <= t@.len(),
            t@.len() <= usize::MAX,
            pn == p@.len(),
            j <= pn,
            forall|l: int| 0 <= l < j ==> t@[i + l] == #[trigger] p@[l],
        decreases pn - j,
    {
        if t.get_char(i + j) != p.get_char(j) {
            proof {
                assert(t@[i + j] != p@[j as int]);
            }
            return false;
        }
        j = j + 1;
    }
    true
}

/// The least position at or after `from` where the pattern occurs.
fn find_from(t: &str, p: &str, from: usize) -> (r: Option<usize>)
    requires
        from <= t@.len(),
    ensures
        match r {
            Some(i) => Some(i as int) == spec_find_from(t@, p@, from as int) && from <= i && i
                + p@.len() <= t@.len(),
            None => spec_find_from(t@, p@, from as int) is None,
        },
{
    let tn = t.unicode_len();
    let pn = p.unicode_len();
    if pn > tn || from > tn - pn {
        proof {
            lemma_find_beyond(t@, p@, from as int);
        }
        return None;
    }
    let mut i: usize = from;
    while i <= tn - pn
        invariant
            from <= i <= tn - pn + 1,
            pn <= tn,
            tn == t@.len(),
            pn == p@.len(),
            spec_find_from(t@, p@, from as int) == spec_find_from(t@, p@, i as int),
        decreases tn - pn + 1 - i,
    {
        if matches_exact_at(t, p, i) {
            return Some(i);
        }
        i = i + 1;
    }
    proof {
        lemma_find_beyond(t@, p@, i as int);
    }
    None
}

/// Past the last position with room for the pattern, nothing is found.
proof fn lemma_find_beyond(t: Seq<char>, p: Seq<char>, from: int)
    requires
        from + p.len() > t.len(),
    ensures
        spec_find_from(t, p, from) is None,
{
}

/// The text without leading and trailing whitespace.
fn trim_chars(s: &str) -> (r: String)
    ensures
        r@ == spec_trim(s@),
{
    let n = s.unicode_len();
    let mut a: usize = 0;
    proof {
        assert(s@.skip(0) =~= s@);
    }
    while a < n && is_whitespace_char(s.get_char(a))
        invariant
            a <= n,
            n == s@.len(),
            spec_trim_start(s@) == spec_trim_start(s@.skip(a as int)),
        decreases n - a,
    {
        proof {
            assert(s@.skip(a as int).first() == s@[a as int]);
            assert(s@.skip(a as int).drop_first() =~= s@.skip(a + 1));
        }
        a = a + 1;
    }
    proof {
        if a < n {
            assert(s@.skip(a as int).first() == s@[a as int]);
        }
        assert(spec_trim_start(s@.skip(a as int)) == s@.skip(a as int));
    }
    let mut b: usize = n;
    while b > a && is_whitespace_char(s.get_char(b - 1))
        invariant
            a <= b <= n,
            n == s@.len(),
            spec_trim_start(s@) == s@.skip(a as int),
            spec_trim_end(s@.subrange(a as int, n as int)) == spec_trim_end(
                s@.subrange(a as int, b as int),
            ),
        decreases b,
    {
        proof {
            assert(s@.subrange(a as int, b as int).last() == s@[b - 1]);
            assert(s@.subrange(a as int, b as int).drop_last() =~= s@.subrange(a as int, b - 1));
        }
        b = b - 1;
    }
    proof {
        if b > a {
            assert(s@.subrange(a as int, b as int).last() == s@[b - 1]);
        }
        assert(spec_trim_end(s@.subrange(a as int, b as int)) == s@.subrange(a as int, b as int));
        assert(s@.skip(a as int) =~= s@.subrange(a as int, n as int));
    }
    let body = s.substring_char(a, b);
    body.to_owned()
}

/// One section of the stored document: what stands between its title line
/// and the next section's title block, trimmed; empty if the title is not
/// found.
pub open spec fn spec_section(
    t: Seq<char>,
    start_pat: Seq<char>,
    next_pat: Option<Seq<char>>,
) -> Seq<char> {
    match spec_find_from(t, start_pat, 0) {
        None => Seq::<char>::empty(),
        Some(s0) => {
            let cs = s0 + start_pat.len();
            let ce = match next_pat {
                Some(np) => match spec_find_from(t, np, cs) {
                    Some(e) => e,
                    None => t.len() as int,
                },
                None => t.len() as int,
            };
            spec_trim(t.subrange(cs, ce))
        },
    }
}

/// Cut one section out of the stored document.
fn section_of(text: &str, start_pat: &str, next_pat: Option<&str>) -> (r: String)
    ensures
        r@ == spec_section(
            text@,
            start_pat@,
            match next_pat {
                Some(p) => Some(p@),
                None => None::<Seq<char>>,
            },
        ),
{
    let tn = text.unicode_len();
    match find_from(text, start_pat, 0) {
        None => String::new(),
        Some(s0) => {
            let pl = start_pat.unicode_len();
            proof {
                assert(s0 + pl <= tn);
            }
            let cs = s0 + pl;
            let ce = match next_pat {
                Some(np) => match find_from(text, np, cs) {
                    Some(e) => e,
                    None => text.unicode_len(),
                },
                None => text.unicode_len(),
            };
            let body = text.substring_char(cs, ce);
            trim_chars(body)
        },
    }
}

/// Take a stored context document apart into its five sections, each
/// trimmed; a section whose title is missing comes back empty.
pub fn split_context(text: &str) -> (r: ContextSections)
    ensures
        r.world@ == spec_section(
            text@,
            "World Description\n"@,
            Some("\n\nLaws of the Worlds\n"@),
        ),
        r.laws@ == spec_section(
            text@,
            "Laws of the Worlds\n"@,
            Some("\n\nPersonality and Behavior\n"@),
        ),
        r.personality@ == spec_section(
            text@,
            "Personality and Behavior\n"@,
            Some("\n\nCharacters and Relations\n"@),
        ),
        r.characters@ == spec_section(
            text@,
            "Characters and Relations\n"@,
            Some("\n\nExamples of Flow Interactions\n"@),
        ),
        r.examples@ == spec_section(text@, "Examples of Flow Interactions\n"@, None::<Seq<char>>),
{
    ContextSections {
        world: section_of(text, "World Description\n", Some("\n\nLaws of the Worlds\n")),
        laws: section_of(text, "Laws of the Worlds\n", Some("\n\nPersonality and Behavior\n")),
        personality: section_of(
            text,
            "Personality and Behavior\n",
            Some("\n\nCharacters and Relations\n"),
        ),
        characters: section_of(
            text,
            "Characters and Relations\n",
            Some("\n\nExamples of Flow Interactions\n"),
        ),
        examples: section_of(text, "Examples of Flow Interactions\n", None),
    }
}

} // verus!
