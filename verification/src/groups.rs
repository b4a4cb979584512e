//! Class blocks: where they stand in a source text and which classes they hold.
use crate::cli::{regex_views, ClassRegex, ClassRegexView, LintConfig};
use crate::patterns::{
    find_all, first_groups, macro_pattern, macros_from, optional_strings, pattern_error, present,
    present_groups, regex_error, regex_groups, regex_matches, spans, string_parts, string_pattern,
    usable,
};
use crate::scan::{close_of, law_close_is_first, lemma_boundary_in_bounds, mask_comments, masked,
    matching_close};
use crate::text::strings;
use vstd::prelude::*;
use vstd::string::*;
use vstd::utf8::*;

verus! {

/// One `tw![…]`-style block: the classes it contains and the byte span of the
/// argument list (between the macro's `[` and its matching `]`), so a fix can
/// rewrite exactly that region.
#[derive(Debug)]
pub struct ClassGroup {
    pub file: String,
    pub line: u32,
    pub list_span: std::ops::Range<usize>,
    pub classes: Vec<String>,
}

pub struct GroupView {
    pub file: Seq<char>,
    pub line: u32,
    pub start: int,
    pub end: int,
    pub classes: Seq<Seq<char>>,
}

impl View for ClassGroup {
    type V = GroupView;

    open spec fn view(&self) -> GroupView {
        GroupView {
            file: self.file@,
            line: self.line,
            start: self.list_span.start as int,
            end: self.list_span.end as int,
            classes: strings(self.classes@),
        }
    }
}

pub open spec fn group_views(list: Seq<ClassGroup>) -> Seq<GroupView> {
    list.map_values(|g: ClassGroup| g@)
}

/// Where a block stands: its line, counted from one, and the byte span of its
/// class list.
pub struct Site {
    pub line: u32,
    pub start: usize,
    pub end: usize,
}

pub struct SiteView {
    pub line: u32,
    pub start: int,
    pub end: int,
}

impl View for Site {
    type V = SiteView;

    open spec fn view(&self) -> SiteView {
        SiteView { line: self.line, start: self.start as int, end: self.end as int }
    }
}

/// The number of newlines among the first `i` bytes.
pub open spec fn newlines_before(bytes: Seq<u8>, i: int) -> nat
    decreases i,
{
    if i <= 0 {
        0
    } else if bytes[i - 1] == 0x0a {
        newlines_before(bytes, i - 1) + 1
    } else {
        newlines_before(bytes, i - 1)
    }
}

/// The line of a byte offset, counted from one; the largest number stands for
/// every line beyond it.
pub open spec fn line_at(bytes: Seq<u8>, i: int) -> u32 {
    let line = newlines_before(bytes, i) + 1;
    if line <= u32::MAX {
        line as u32
    } else {
        u32::MAX
    }
}

/// The block whose opener matched a byte range; none, where nothing closes it.
pub open spec fn site_of(bytes: Seq<u8>, opener: (int, int)) -> Option<SiteView> {
    match close_of(bytes, opener.1) {
        Some(end) => Some(SiteView { line: line_at(bytes, opener.0), start: opener.1, end }),
        None => None,
    }
}

/// The block at a site with some classes; none, where there are none.
pub open spec fn group_with(
    file: Seq<char>,
    site: SiteView,
    classes: Seq<Seq<char>>,
) -> Option<GroupView> {
    if classes.len() == 0 {
        None
    } else {
        Some(GroupView { file, line: site.line, start: site.start, end: site.end, classes })
    }
}

/// The block at a site, given the groups that the class pattern found in its
/// list; none, where these hold no class.
pub open spec fn group_from(
    file: Seq<char>,
    site: SiteView,
    groups: Seq<Option<Seq<char>>>,
) -> Option<GroupView> {
    group_with(file, site, present(groups))
}

/// The block behind an opener.
pub open spec fn block_in(
    item: Seq<char>,
    file: Seq<char>,
    bytes: Seq<u8>,
    opener: (int, int),
) -> Option<GroupView> {
    match site_of(bytes, opener) {
        Some(site) => group_from(
            file,
            site,
            regex_groups(item, decode_utf8(bytes.subrange(site.start, site.end))),
        ),
        None => None,
    }
}

/// The blocks behind the openers, in order.
pub open spec fn blocks_in(
    item: Seq<char>,
    file: Seq<char>,
    bytes: Seq<u8>,
    openers: Seq<(int, int)>,
) -> Seq<GroupView>
    decreases openers.len(),
{
    if openers.len() == 0 {
        Seq::empty()
    } else {
        let before = blocks_in(item, file, bytes, openers.drop_last());
        match block_in(item, file, bytes, openers.last()) {
            Some(group) => before.push(group),
            None => before,
        }
    }
}

/// The blocks of a source text: the openers are sought in the text without its
/// comments.
pub open spec fn source_blocks(
    opener: Seq<char>,
    item: Seq<char>,
    file: Seq<char>,
    text: Seq<char>,
) -> Seq<GroupView> {
    let bytes = masked(encode_utf8(text));
    blocks_in(item, file, bytes, regex_matches(opener, decode_utf8(bytes)))
}

/// The block behind an opener, whose classes are the strings of its list.
pub open spec fn list_in(file: Seq<char>, bytes: Seq<u8>, opener: (int, int)) -> Option<GroupView> {
    match site_of(bytes, opener) {
        Some(site) => group_with(
            file,
            site,
            string_parts(decode_utf8(bytes.subrange(site.start, site.end))),
        ),
        None => None,
    }
}

/// The blocks behind the openers, whose classes are the strings of their lists.
pub open spec fn lists_in(
    file: Seq<char>,
    bytes: Seq<u8>,
    openers: Seq<(int, int)>,
) -> Seq<GroupView>
    decreases openers.len(),
{
    if openers.len() == 0 {
        Seq::empty()
    } else {
        let before = lists_in(file, bytes, openers.drop_last());
        match list_in(file, bytes, openers.last()) {
            Some(group) => before.push(group),
            None => before,
        }
    }
}

/// The `tw!` blocks of a source text.
pub open spec fn source_lists(file: Seq<char>, text: Seq<char>) -> Seq<GroupView> {
    let bytes = masked(encode_utf8(text));
    lists_in(file, bytes, macros_from(decode_utf8(bytes), 0))
}

/// The line of a byte offset.
pub fn line_of(text: &str, offset: usize) -> (line: u32)
    requires
        offset <= text.spec_bytes().len(),
    ensures
        line == line_at(text.spec_bytes(), offset as int),
{
    let bytes = text.as_bytes();
    let mut count: usize = 0;
    let mut i: usize = 0;
    while i < offset
        invariant
            bytes@ == text.spec_bytes(),
            i <= offset <= bytes@.len(),
            count <= i,
            count == newlines_before(bytes@, i as int),
        decreases offset - i,
    {
        if bytes[i] == 0x0a {
            count += 1;
        }
        i += 1;
    }
    if count < u32::MAX as usize {
        count as u32 + 1
    } else {
        u32::MAX
    }
}

/// The block whose opener matched a byte range of a text without comments.
pub fn block_site(text: &str, opener: (usize, usize)) -> (site: Option<Site>)
    requires
        opener.0 <= text.spec_bytes().len(),
        is_char_boundary(text.spec_bytes(), opener.1 as int),
    ensures
        match site {
            Some(found) => site_of(text.spec_bytes(), (opener.0 as int, opener.1 as int)) == Some(
                found@,
            ),
            None => site_of(text.spec_bytes(), (opener.0 as int, opener.1 as int)) is None,
        },
{
    match matching_close(text, opener.1) {
        Some(end) => Some(Site { line: line_of(text, opener.0), start: opener.1, end }),
        None => None,
    }
}

/// The part of a text between two character boundaries.
pub fn text_between(text: &str, start: usize, end: usize) -> (part: &str)
    requires
        start <= end,
        is_char_boundary(text.spec_bytes(), start as int),
        is_char_boundary(text.spec_bytes(), end as int),
    ensures
        part.spec_bytes() == text.spec_bytes().subrange(start as int, end as int),
        part@ == decode_utf8(text.spec_bytes().subrange(start as int, end as int)),
{
    let ghost bytes = text.spec_bytes();
    proof {
        encode_utf8_valid_utf8(text@);
        lemma_boundary_in_bounds(bytes, start as int);
        lemma_boundary_in_bounds(bytes, end as int);
    }
    let (head, tail) = text.split_at(start);
    proof {
        encode_utf8_valid_utf8(tail@);
        let rest = tail.spec_bytes();
        let n = end - start;
        is_char_boundary_start_end_of_seq(rest);
        if n < rest.len() {
            assert(rest[n] == bytes[end as int]);
            is_char_boundary_iff_not_is_continuation_byte(bytes, end as int);
            is_char_boundary_iff_not_is_continuation_byte(rest, n);
        }
    }
    let (part, _) = tail.split_at(end - start);
    proof {
        assert(part.spec_bytes() =~= bytes.subrange(start as int, end as int));
        encode_utf8_decode_utf8(part@);
    }
    part
}

/// The block at a site, given the groups that the class pattern found in its
/// list.
pub fn group_at(file: &str, site: &Site, groups: &Vec<Option<String>>) -> (group: Option<ClassGroup>)
    ensures
        match group {
            Some(found) => group_from(file@, site@, optional_strings(groups@)) == Some(found@),
            None => group_from(file@, site@, optional_strings(groups@)) is None,
        },
{
    let classes = present_groups(groups);
    assert(strings(classes@).len() == classes@.len());
    if classes.is_empty() {
        None
    } else {
        Some(
            ClassGroup {
                file: file.to_string(),
                line: site.line,
                list_span: std::ops::Range { start: site.start, end: site.end },
                classes,
            },
        )
    }
}

/// Why there is no matcher for a configuration.
#[derive(Debug)]
pub enum MatcherError {
    /// No class pattern comes with a container.
    NoContainer,
    /// The container pattern is no regular expression.
    BadContainer(String),
    /// The class pattern is no regular expression.
    BadClass(String),
}

impl MatcherError {
    /// The message for the user.
    pub fn message(&self) -> (text: String)
        ensures
            text@ == match self {
                MatcherError::NoContainer =>
                    "--class-container is required (with a --class-regex)"@,
                MatcherError::BadContainer(error) => "invalid --class-container regex: "@ + error@,
                MatcherError::BadClass(error) => "invalid --class-regex: "@ + error@,
            },
    {
        match self {
            MatcherError::NoContainer =>
                "--class-container is required (with a --class-regex)".to_string(),
            MatcherError::BadContainer(error) => "invalid --class-container regex: ".to_string().concat(
                error.as_str(),
            ),
            MatcherError::BadClass(error) => "invalid --class-regex: ".to_string().concat(
                error.as_str(),
            ),
        }
    }
}

/// The first pair of a container pattern and a class pattern.
pub open spec fn first_container(regexes: Seq<ClassRegexView>) -> Option<(Seq<char>, Seq<char>)>
    decreases regexes.len(),
{
    if regexes.len() == 0 {
        None
    } else {
        match regexes[0] {
            ClassRegexView::Container { container, class } => Some((container, class)),
            ClassRegexView::Simple(_) => first_container(regexes.drop_first()),
        }
    }
}

/// The first pair of a container pattern and a class pattern.
fn find_container(regexes: &Vec<ClassRegex>) -> (found: Option<(String, String)>)
    ensures
        match found {
            Some(pair) => first_container(regex_views(regexes@)) == Some((pair.0@, pair.1@)),
            None => first_container(regex_views(regexes@)) is None,
        },
{
    let mut i: usize = 0;
    let ghost all = regex_views(regexes@);
    assert(all.skip(0) =~= all);
    while i < regexes.len()
        invariant
            i <= regexes@.len(),
            all == regex_views(regexes@),
            first_container(all) == first_container(all.skip(i as int)),
        decreases regexes@.len() - i,
    {
        assert(all.skip(i as int)[0] == regexes@[i as int]@);
        assert(all.skip(i as int).drop_first() =~= all.skip(i + 1));
        match &regexes[i] {
            ClassRegex::Container { container, class } => {
                return Some((container.clone(), class.clone()));
            },
            ClassRegex::Simple(_) => {},
        }
        i += 1;
    }
    None
}

/// What stands in a comment does not matter: two sources that differ only in
/// their comments, offset by offset, have the same blocks.
pub proof fn law_comments_do_not_count(
    opener: Seq<char>,
    item: Seq<char>,
    file: Seq<char>,
    a: Seq<char>,
    b: Seq<char>,
)
    requires
        masked(encode_utf8(a)) == masked(encode_utf8(b)),
    ensures
        source_blocks(opener, item, file, a) == source_blocks(opener, item, file, b),
{
}

/// Finds class blocks: an `opener` pattern locates each macro's opening bracket
/// (e.g. `tw!\s*\[`), a bracket scanner finds its matching close, and `item`
/// extracts each class from the content in between.
pub struct GroupMatcher {
    opener: String,
    item: String,
}

impl GroupMatcher {
    #[verifier::type_invariant]
    closed spec fn compiles(self) -> bool {
        usable(self.opener@) && usable(self.item@)
    }

    pub closed spec fn opener_pattern(&self) -> Seq<char> {
        self.opener@
    }

    pub closed spec fn item_pattern(&self) -> Seq<char> {
        self.item@
    }

    /// The matcher for the first container of a configuration.
    pub fn from_config(config: &LintConfig) -> (matcher: Result<GroupMatcher, MatcherError>)
        ensures
            match first_container(regex_views(config.class_regexes@)) {
                None => matcher == Err::<GroupMatcher, MatcherError>(MatcherError::NoContainer),
                Some(pair) => match regex_error(pair.0) {
                    Some(error) => matcher matches Err(MatcherError::BadContainer(message))
                        && message@ == error,
                    None => match regex_error(pair.1) {
                        Some(error) => matcher matches Err(MatcherError::BadClass(message))
                            && message@ == error,
                        None => matcher matches Ok(found) && found.opener_pattern() == pair.0
                            && found.item_pattern() == pair.1,
                    },
                },
            },
    {
        let source = match find_container(&config.class_regexes) {
            Some(source) => source,
            None => {
                return Err(MatcherError::NoContainer);
            },
        };
        if let Some(error) = pattern_error(source.0.as_str()) {
            return Err(MatcherError::BadContainer(error));
        }
        if let Some(error) = pattern_error(source.1.as_str()) {
            return Err(MatcherError::BadClass(error));
        }
        Ok(GroupMatcher { opener: source.0, item: source.1 })
    }

    /// The class blocks of a source text. A copy without comments is searched,
    /// so that neither a quoted string nor a bracket in a comment counts; it
    /// keeps every byte offset. No two blocks start at the same offset. With the
    /// patterns of `tw!` blocks and of strings these are the `tw!` blocks and the
    /// strings of their lists.
    pub fn extract(&self, file: &str, text: &str) -> (groups: Vec<ClassGroup>)
        ensures
            group_views(groups@) == source_blocks(
                self.opener_pattern(),
                self.item_pattern(),
                file@,
                text@,
            ),
            forall|i: int, j: int|
                0 <= i < j < groups@.len() ==> (#[trigger] groups@[i]).list_span.start < (
                #[trigger] groups@[j]).list_span.start,
            forall|i: int|
                0 <= i < groups@.len() ==> (#[trigger] groups@[i]).list_span.start
                    <= groups@[i].list_span.end && groups@[i].list_span.end
                    < text.spec_bytes().len() && groups@[i].classes@.len() > 0 && groups@[i].file@
                    == file@,
            self.opener_pattern() == macro_pattern() && self.item_pattern() == string_pattern()
                ==> group_views(groups@) == source_lists(file@, text@),
    {
        proof {
            use_type_invariant(self);
        }
        let mask = mask_comments(text);
        let mask = mask.as_str();
        let ghost bytes = masked(text.spec_bytes());
        proof {
            encode_utf8_decode_utf8(mask@);
            encode_utf8_valid_utf8(mask@);
        }
        let openers = find_all(self.opener.as_str(), mask);
        let ghost all = spans(openers@);
        let ghost lists = self.item@ == string_pattern();
        let mut groups: Vec<ClassGroup> = Vec::new();
        let mut i: usize = 0;
        while i < openers.len()
            invariant
                i <= openers@.len(),
                all == spans(openers@),
                mask.spec_bytes() == bytes,
                valid_utf8(bytes),
                bytes.len() == text.spec_bytes().len(),
                usable(self.item@),
                group_views(groups@) == blocks_in(
                    self.item@,
                    file@,
                    bytes,
                    all.take(i as int),
                ),
                lists == (self.item@ == string_pattern()),
                lists ==> group_views(groups@) == lists_in(file@, bytes, all.take(i as int)),
                forall|k: int|
                    0 <= k < openers@.len() ==> (#[trigger] openers@[k]).0 <= openers@[k].1
                        && openers@[k].1 <= bytes.len() && is_char_boundary(
                        bytes,
                        openers@[k].1 as int,
                    ),
                forall|k: int, l: int|
                    0 <= k < l < openers@.len() ==> (#[trigger] openers@[k]).1 < (
                    #[trigger] openers@[l]).1,
                forall|k: int|
                    0 <= k < groups@.len() ==> (#[trigger] groups@[k]).list_span.start
                        <= groups@[k].list_span.end && groups@[k].list_span.end < bytes.len()
                        && groups@[k].classes@.len() > 0 && groups@[k].file@ == file@ && exists|
                        o: int,
                    |
                        0 <= o < i && (#[trigger] openers@[o]).1 == groups@[k].list_span.start,
                forall|k: int, l: int|
                    0 <= k < l < groups@.len() ==> (#[trigger] groups@[k]).list_span.start < (
                    #[trigger] groups@[l]).list_span.start,
            decreases openers@.len() - i,
        {
            let opener = openers[i];
            let ghost before = groups@;
            proof {
                assert(all.take(i + 1).drop_last() =~= all.take(i as int));
                assert(all.take(i + 1).last() == (opener.0 as int, opener.1 as int));
                law_close_is_first(bytes, opener.1 as int);
            }
            if let Some(site) = block_site(mask, opener) {
                let inner = text_between(mask, site.start, site.end);
                let found = first_groups(self.item.as_str(), inner);
                if let Some(group) = group_at(file, &site, &found) {
                    assert(strings(group.classes@).len() == group.classes@.len());
                    groups.push(group);
                    assert(group_views(groups@) =~= group_views(before).push(group@));
                    assert(openers@[i as int].1 == group.list_span.start);
                    assert forall|k: int| 0 <= k < before.len() implies (
                    #[trigger] groups@[k]).list_span.start < group.list_span.start by {
                        assert(groups@[k] == before[k]);
                        let o = choose|o: int|
                            0 <= o < i && (#[trigger] openers@[o]).1 == before[k].list_span.start;
                        assert(openers@[o].1 < openers@[i as int].1);
                    }
                }
            }
            i += 1;
        }
        assert(all.take(i as int) =~= all);
        groups
    }
}

} // verus!
