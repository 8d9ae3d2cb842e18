//! Tags: labelled markers written inline in note text.
//!
//! A tag marker is `@` followed by one or more word characters (the
//! label), optionally followed by a parenthesized word (a value). Only
//! the label is retained; a value is consumed and discarded.

use vstd::prelude::*;

verus! {

/// A labelled marker. A single variant today; the shape leaves room
/// for variants that carry a value.
#[derive(Debug, Clone, Eq, Hash)]
pub enum Tag {
    Label(String),
}

impl View for Tag {
    type V = Seq<char>;

    open spec fn view(&self) -> Seq<char> {
        match self {
            Tag::Label(s) => s@,
        }
    }
}

impl DeepView for Tag {
    type V = Seq<char>;

    open spec fn deep_view(&self) -> Seq<char> {
        self.view()
    }
}

impl PartialEq for Tag {
    fn eq(&self, other: &Tag) -> (r: bool) {
        match (self, other) {
            (Tag::Label(a), Tag::Label(b)) => a.eq(b),
        }
    }
}

impl vstd::std_specs::cmp::PartialEqSpecImpl for Tag {
    open spec fn obeys_eq_spec() -> bool {
        true
    }

    open spec fn eq_spec(&self, other: &Tag) -> bool {
        self@ == other@
    }
}

/// A word character: an ASCII letter, a digit, or an underscore.
pub open spec fn is_word_char(c: char) -> bool {
    ('a' <= c && c <= 'z') || ('A' <= c && c <= 'Z') || ('0' <= c && c <= '9') || c == '_'
}

/// The position right after the run of word characters starting at `i`.
pub open spec fn word_end(s: Seq<char>, i: int) -> int
    decreases s.len() - i,
{
    if 0 <= i < s.len() && is_word_char(s[i]) {
        word_end(s, i + 1)
    } else {
        i
    }
}

/// A word run ends in bounds, at or after where it starts.
pub proof fn lemma_word_end(s: Seq<char>, i: int)
    requires
        0 <= i <= s.len(),
    ensures
        i <= word_end(s, i) <= s.len(),
    decreases s.len() - i,
{
    if i < s.len() && is_word_char(s[i]) {
        lemma_word_end(s, i + 1);
    }
}

/// The position right after an optional parenthesized value starting
/// at `i`: past `(<word>)` when that is what stands there, else `i`.
pub open spec fn after_value(s: Seq<char>, i: int) -> int {
    if 0 <= i < s.len() && s[i] == '(' {
        let w = word_end(s, i + 1);
        if w < s.len() && s[w] == ')' {
            w + 1
        } else {
            i
        }
    } else {
        i
    }
}

/// The labels of the tag markers in `s` at or after `i`, in order of
/// occurrence.
pub open spec fn find_tags_from(s: Seq<char>, i: int) -> Seq<Seq<char>>
    decreases s.len() - i,
    when 0 <= i
    via find_tags_from_decreases
{
    if i >= s.len() {
        Seq::empty()
    } else if s[i] == '@' && i + 1 < s.len() && is_word_char(s[i + 1]) {
        let j = word_end(s, i + 1);
        let k = after_value(s, j);
        seq![s.subrange(i + 1, j)] + find_tags_from(s, k)
    } else {
        find_tags_from(s, i + 1)
    }
}

#[via_fn]
proof fn find_tags_from_decreases(s: Seq<char>, i: int) {
    if i < s.len() && s[i] == '@' && i + 1 < s.len() && is_word_char(s[i + 1]) {
        lemma_word_end(s, i + 1);
        let j = word_end(s, i + 1);
        if 0 <= j < s.len() && s[j] == '(' {
            lemma_word_end(s, j + 1);
        }
    }
}

/// The labels of all tag markers in `s`, left to right.
pub open spec fn spec_find_tags(s: Seq<char>) -> Seq<Seq<char>> {
    find_tags_from(s, 0)
}

/// Whether `c` is a word character.
fn word_char_x(c: char) -> (r: bool)
    ensures
        r == is_word_char(c),
{
    (c >= 'a' && c <= 'z') || (c >= 'A' && c <= 'Z') || (c >= '0' && c <= '9') || c == '_'
}

/// Scans `s` from `from` to the end of the word-character run.
fn scan_word(s: &str, from: usize) -> (r: usize)
    requires
        from <= s@.len(),
    ensures
        r == word_end(s@, from as int),
        from <= r <= s@.len(),
{
    proof {
        lemma_word_end(s@, from as int);
    }
    let n = s.unicode_len();
    let mut j: usize = from;
    while j < n
        invariant
            from <= j <= n == s@.len(),
            word_end(s@, from as int) == word_end(s@, j as int),
        decreases n - j,
    {
        if !word_char_x(s.get_char(j)) {
            return j;
        }
        j = j + 1;
    }
    j
}

impl Tag {
    /// A tag with the given label.
    pub fn new_label(value: String) -> (r: Tag)
        ensures
            r@ == value@,
    {
        Tag::Label(value)
    }

    /// A copy of this tag with the same label.
    pub fn duplicate(&self) -> (r: Tag)
        ensures
            r@ == self@,
    {
        match self {
            Tag::Label(s) => Tag::Label(s.clone()),
        }
    }

    /// Wraps raw text as a label, verbatim. Filter tags supplied on
    /// the command line are plain labels, not subject to the marker
    /// grammar.
    pub fn parse_single(text: &str) -> (r: Tag)
        ensures
            r@ == text@,
    {
        Tag::Label(text.to_owned())
    }

    /// Finds the tags written in a text, in order of occurrence.
    pub fn find(s: &str) -> (r: Tags)
        ensures
            r@ == spec_find_tags(s@),
    {
        let n = s.unicode_len();
        let mut found: Vec<Tag> = Vec::new();
        let mut i: usize = 0;
        while i < n
            invariant
                i <= n == s@.len(),
                found.deep_view() + find_tags_from(s@, i as int) =~= spec_find_tags(s@),
            decreases n - i,
        {
            if s.get_char(i) == '@' && i + 1 < n && word_char_x(s.get_char(i + 1)) {
                let j = scan_word(s, i + 1);
                let label = s.substring_char(i + 1, j).to_owned();
                let ghost pre = found.deep_view();
                found.push(Tag::Label(label));
                proof {
                    assert(found.deep_view() =~= pre + seq![s@.subrange(i + 1, j as int)]);
                }
                let k: usize = if j < n && s.get_char(j) == '(' {
                    let w = scan_word(s, j + 1);
                    if w < n && s.get_char(w) == ')' {
                        w + 1
                    } else {
                        j
                    }
                } else {
                    j
                };
                proof {
                    assert(k == after_value(s@, j as int));
                    assert(find_tags_from(s@, i as int) == seq![s@.subrange(i + 1, j as int)]
                        + find_tags_from(s@, k as int));
                }
                i = k;
            } else {
                i = i + 1;
            }
        }
        Tags(found)
    }
}

/// Failure to read a single tag from text. The current grammar accepts
/// any text, so this is never produced.
#[derive(Debug, Clone, Copy, PartialEq, Eq, Structural)]
pub enum ParseTagError {
    Unknown,
}

/// Failure to read a comma-separated tag list. The current grammar
/// accepts any text, so this is never produced.
#[derive(Debug, Clone, Copy, PartialEq, Eq, Structural)]
pub enum ParseTagsError {
    Unknown,
}

/// An ordered collection of tags with set-style queries. No
/// uniqueness is enforced: the same label may appear twice.
#[derive(Debug, Clone, PartialEq)]
pub struct Tags(pub Vec<Tag>);

impl View for Tags {
    type V = Seq<Seq<char>>;

    open spec fn view(&self) -> Seq<Seq<char>> {
        self.0.deep_view()
    }
}

impl DeepView for Tags {
    type V = Seq<Seq<char>>;

    open spec fn deep_view(&self) -> Seq<Seq<char>> {
        self.view()
    }
}

impl Tags {
    /// The tags, in order.
    pub fn iter(&self) -> (r: &Vec<Tag>)
        ensures
            r.deep_view() == self@,
    {
        &self.0
    }

    /// How many tags the collection holds.
    pub fn len(&self) -> (r: usize)
        ensures
            r == self@.len(),
    {
        self.0.len()
    }

    /// Appends a tag at the end.
    pub fn push(&mut self, tag: Tag)
        ensures
            final(self)@ == old(self)@.push(tag@),
    {
        let ghost pre = self.0.deep_view();
        self.0.push(tag);
        proof {
            assert(self@ =~= pre.push(tag@));
        }
    }

    /// Whether some tag here carries the same label as `tag`.
    pub fn contains(&self, tag: &Tag) -> (r: bool)
        ensures
            r == self@.contains(tag@),
    {
        let mut i: usize = 0;
        while i < self.0.len()
            invariant
                i <= self.0.len(),
                self@.len() == self.0.len(),
                forall|j: int| 0 <= j < i ==> self@[j] != tag@,
            decreases self.0.len() - i,
        {
            if &self.0[i] == tag {
                proof {
                    assert(self@[i as int] == tag@);
                }
                return true;
            }
            i = i + 1;
        }
        false
    }

    /// Whether every tag in `tags` is present here.
    pub fn contains_all(&self, tags: &Tags) -> (r: bool)
        ensures
            r == (forall|j: int| 0 <= j < tags@.len() ==> self@.contains(#[trigger] tags@[j])),
    {
        let mut i: usize = 0;
        while i < tags.0.len()
            invariant
                i <= tags.0.len(),
                tags@.len() == tags.0.len(),
                forall|j: int| 0 <= j < i ==> self@.contains(#[trigger] tags@[j]),
            decreases tags.0.len() - i,
        {
            if !self.contains(&tags.0[i]) {
                proof {
                    assert(!self@.contains(tags@[i as int]));
                }
                return false;
            }
            i = i + 1;
        }
        true
    }

    /// Whether at least one tag in `tags` is present here.
    pub fn contains_any(&self, tags: &Tags) -> (r: bool)
        ensures
            r == (exists|j: int| 0 <= j < tags@.len() && self@.contains(#[trigger] tags@[j])),
    {
        let mut i: usize = 0;
        while i < tags.0.len()
            invariant
                i <= tags.0.len(),
                tags@.len() == tags.0.len(),
                forall|j: int| 0 <= j < i ==> !self@.contains(#[trigger] tags@[j]),
            decreases tags.0.len() - i,
        {
            if self.contains(&tags.0[i]) {
                proof {
                    assert(self@.contains(tags@[i as int]));
                }
                return true;
            }
            i = i + 1;
        }
        false
    }

    /// Wraps a vector of tags.
    pub fn from_vec(tags: Vec<Tag>) -> (r: Tags)
        ensures
            r@ == tags.deep_view(),
    {
        Tags(tags)
    }
}

/// The segments of `s` between commas, in order. Text without a comma
/// is a single segment; so is the empty text.
pub open spec fn split_commas(s: Seq<char>) -> Seq<Seq<char>>
    decreases s.len(),
    via split_commas_decreases
{
    let i = crate::text::find_char(s, 0, ',');
    if i == s.len() {
        seq![s]
    } else {
        seq![s.subrange(0, i)] + split_commas(s.subrange(i + 1, s.len() as int))
    }
}

#[via_fn]
proof fn split_commas_decreases(s: Seq<char>) {
    crate::text::lemma_find_char(s, 0, ',');
}

/// Reads a comma-separated list of plain labels. The current grammar
/// accepts every segment, so this never fails.
pub fn parse_tags(arg: &str) -> (r: Result<Tags, ParseTagsError>)
    ensures
        r matches Ok(ts) && ts@ == split_commas(arg@),
{
    let n = arg.unicode_len();
    let mut found: Vec<Tag> = Vec::new();
    let mut i: usize = 0;
    proof {
        assert(arg@.subrange(0, n as int) =~= arg@);
    }
    loop
        invariant
            i <= n == arg@.len(),
            found.deep_view() + split_commas(arg@.subrange(i as int, n as int)) =~= split_commas(
                arg@,
            ),
        decreases n - i,
    {
        let j = crate::text::scan_char(arg, i, ',');
        proof {
            crate::text::lemma_find_char(arg@, i as int, ',');
            lemma_split_commas_step(arg@, i as int, j as int);
        }
        let seg = arg.substring_char(i, j).to_owned();
        let ghost pre = found.deep_view();
        found.push(Tag::Label(seg));
        proof {
            assert(found.deep_view() =~= pre.push(arg@.subrange(i as int, j as int)));
        }
        if j == n {
            proof {
                assert(found.deep_view() =~= split_commas(arg@));
            }
            return Ok(Tags(found));
        }
        proof {
            assert(found.deep_view() + split_commas(arg@.subrange(j + 1, n as int))
                =~= split_commas(arg@));
        }
        i = j + 1;
    }
}

/// One step of comma splitting: the tail from `i` splits into the
/// segment up to the next comma (or the end) and the rest.
proof fn lemma_split_commas_step(s: Seq<char>, i: int, j: int)
    requires
        0 <= i <= j <= s.len(),
        j == crate::text::find_char(s, i, ','),
    ensures
        j == s.len() ==> split_commas(s.subrange(i, s.len() as int)) == seq![
            s.subrange(i, s.len() as int),
        ],
        j < s.len() ==> split_commas(s.subrange(i, s.len() as int)) == seq![s.subrange(i, j)]
            + split_commas(s.subrange(j + 1, s.len() as int)),
{
    let t = s.subrange(i, s.len() as int);
    crate::text::lemma_find_char(s, i, ',');
    lemma_find_char_shift(s, i, ',');
    if j == s.len() {
        assert(crate::text::find_char(t, 0, ',') == t.len());
    } else {
        assert(crate::text::find_char(t, 0, ',') == j - i);
        assert(t.subrange(0, j - i) =~= s.subrange(i, j));
        assert(t.subrange(j - i + 1, t.len() as int) =~= s.subrange(j + 1, s.len() as int));
    }
}

/// Searching a suffix finds the same first occurrence, shifted.
proof fn lemma_find_char_shift(s: Seq<char>, i: int, c: char)
    requires
        0 <= i <= s.len(),
    ensures
        crate::text::find_char(s.subrange(i, s.len() as int), 0, c) == crate::text::find_char(
            s,
            i,
            c,
        ) - i,
    decreases s.len() - i,
{
    let t = s.subrange(i, s.len() as int);
    crate::text::lemma_find_char(s, i, c);
    crate::text::lemma_find_char(t, 0, c);
    let f = crate::text::find_char(s, i, c);
    let g = crate::text::find_char(t, 0, c);
    assert(forall|j: int| 0 <= j < f - i ==> t[j] != c);
    if f < s.len() {
        assert(t[f - i] == c);
        crate::text::lemma_find_char_pins(t, 0, f - i, c);
    } else {
        if g < t.len() {
            assert(s[i + g] == c);
            assert(false);
        }
    }
}

} // verus!
