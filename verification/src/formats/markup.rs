//! Small text pieces used when turning word-processor XML into HTML: escaping,
//! heading styles, number parsing, attribute lookup, and the HTML being built.

use vstd::prelude::*;
use crate::strs::{chars_of, is_word, ascii_lower, lower_ascii_chars, push_char, owned, is_digit, digit_value};
use crate::formats::table::blank;
use crate::xmlread::XmlTag;

verus! {

/// The HTML escape of one character: `&`, `<` and `>` become entities.
pub open spec fn escape_char(c: char) -> Seq<char> {
    if c == '&' {
        "&amp;"@
    } else if c == '<' {
        "&lt;"@
    } else if c == '>' {
        "&gt;"@
    } else {
        seq![c]
    }
}

/// Text with `&`, `<` and `>` replaced by their entities.
pub open spec fn escaped(s: Seq<char>) -> Seq<char>
    decreases s.len(),
{
    if s.len() == 0 {
        Seq::empty()
    } else {
        escaped(s.drop_last()) + escape_char(s.last())
    }
}

/// Escapes `&`, `<` and `>` for HTML.
pub fn esc(s: &str) -> (r: String)
    ensures
        r@ == escaped(s@),
{
    let v = chars_of(s);
    let mut r = String::new();
    let mut i: usize = 0;
    while i < v.len()
        invariant
            i <= v.len(),
            v@ == s@,
            r@ == escaped(v@.take(i as int)),
        decreases v.len() - i,
    {
        let c = v[i];
        assert(v@.take(i + 1).drop_last() =~= v@.take(i as int));
        if c == '&' {
            r.append("&amp;");
        } else if c == '<' {
            r.append("&lt;");
        } else if c == '>' {
            r.append("&gt;");
        } else {
            push_char(&mut r, c);
            assert(r@ =~= escaped(v@.take(i as int)) + seq![c]);
        }
        i = i + 1;
    }
    assert(v@.take(v.len() as int) =~= v@);
    r
}

/// Escaped text holds no `<` and no `>`: text taken from a document can never
/// open or close a tag in the HTML it is put into.
pub proof fn law_escaped_has_no_tags(s: Seq<char>)
    ensures
        forall|i: int| 0 <= i < escaped(s).len() ==> #[trigger] escaped(s)[i] != '<'
            && escaped(s)[i] != '>',
    decreases s.len(),
{
    reveal_strlit("&amp;");
    reveal_strlit("&lt;");
    reveal_strlit("&gt;");
    if s.len() > 0 {
        law_escaped_has_no_tags(s.drop_last());
        let a = escaped(s.drop_last());
        let e = escape_char(s.last());
        assert forall|i: int| 0 <= i < escaped(s).len() implies #[trigger] escaped(s)[i] != '<'
            && escaped(s)[i] != '>' by {
            if i < a.len() {
                assert(escaped(s)[i] == a[i]);
            } else {
                assert(escaped(s)[i] == e[i - a.len()]);
            }
        }
    }
}

/// `needle` occurs in `hay` as a contiguous piece.
pub open spec fn has_piece(hay: Seq<char>, needle: Seq<char>) -> bool {
    exists|i: int| 0 <= i <= hay.len() - needle.len() && #[trigger] hay.subrange(i, i + needle.len()) == needle
}

/// Whether `needle` occurs in `hay` (`str::contains`).
pub fn contains_chars(hay: &Vec<char>, needle: &Vec<char>) -> (r: bool)
    ensures
        r == has_piece(hay@, needle@),
{
    if needle.len() > hay.len() {
        return false;
    }
    let n = needle.len();
    let mut i: usize = 0;
    while i <= hay.len() - n
        invariant
            n == needle.len() <= hay.len(),
            i <= hay.len() - n + 1,
            forall|j: int| 0 <= j < i ==> #[trigger] hay@.subrange(j, j + n) != needle@,
        decreases hay.len() - n + 1 - i,
    {
        let mut k: usize = 0;
        let mut same = true;
        while k < n
            invariant
                n == needle.len() <= hay.len(),
                i + n <= hay.len(),
                k <= n,
                same == forall|m: int| 0 <= m < k ==> hay@[i + m] == needle@[m],
            decreases n - k,
        {
            if hay[i + k] != needle[k] {
                same = false;
            }
            k = k + 1;
        }
        if same {
            assert(hay@.subrange(i as int, i + n) =~= needle@);
            return true;
        }
        assert(hay@.subrange(i as int, i + n) != needle@) by {
            let m = choose|m: int| 0 <= m < n && hay@[i + m] != needle@[m];
            assert(hay@.subrange(i as int, i + n)[m] == hay@[i + m]);
        }
        i = i + 1;
    }
    false
}

/// Value of a run of ASCII digits.
pub open spec fn digits_number(d: Seq<char>) -> nat
    decreases d.len(),
{
    if d.len() == 0 {
        0
    } else {
        digits_number(d.drop_last()) * 10 + digit_value(d.last())
    }
}

/// Every character of `d` is an ASCII digit.
pub open spec fn all_digits(d: Seq<char>) -> bool {
    forall|i: int| 0 <= i < d.len() ==> is_digit(#[trigger] d[i])
}

/// `str::parse::<u8>`: an optional `+` followed by one or more ASCII digits
/// whose value fits in a byte.
pub open spec fn parsed_u8(s: Seq<char>) -> Option<u8> {
    let d = if s.len() > 0 && s[0] == '+' {
        s.drop_first()
    } else {
        s
    };
    if d.len() == 0 || !all_digits(d) {
        None
    } else if digits_number(d) > 255 {
        None
    } else {
        Some(digits_number(d) as u8)
    }
}

proof fn lemma_digits_number_grows(d: Seq<char>, k: int)
    requires
        0 <= k <= d.len(),
        forall|i: int| 0 <= i < d.len() ==> is_digit(#[trigger] d[i]),
    ensures
        digits_number(d.take(k)) <= digits_number(d),
    decreases d.len(),
{
    if k < d.len() {
        assert(d.drop_last().take(k) =~= d.take(k));
        assert forall|i: int| 0 <= i < d.drop_last().len() implies is_digit(
            #[trigger] d.drop_last()[i],
        ) by {
            assert(d.drop_last()[i] == d[i]);
        }
        lemma_digits_number_grows(d.drop_last(), k);
    } else {
        assert(d.take(k) =~= d);
    }
}

/// Parses `v[from..]` as a `u8` the way `str::parse::<u8>` does.
pub fn parse_u8(v: &Vec<char>, from: usize) -> (r: Option<u8>)
    requires
        from <= v.len(),
    ensures
        r == parsed_u8(v@.skip(from as int)),
{
    let ghost s = v@.skip(from as int);
    let start: usize = if from < v.len() && v[from] == '+' {
        from + 1
    } else {
        from
    };
    let ghost d = v@.skip(start as int);
    assert(d =~= (if s.len() > 0 && s[0] == '+' {
        s.drop_first()
    } else {
        s
    }));
    if start == v.len() {
        return None;
    }
    let mut n: u32 = 0;
    let mut i: usize = start;
    while i < v.len()
        invariant
            start <= i <= v.len(),
            d == v@.skip(start as int),
            s == v@.skip(from as int),
            d == (if s.len() > 0 && s[0] == '+' {
                s.drop_first()
            } else {
                s
            }),
            d.len() > 0,
            forall|j: int| start <= j < i ==> is_digit(#[trigger] v@[j]),
            n == digits_number(v@.subrange(start as int, i as int)),
            n <= 255,
        decreases v.len() - i,
    {
        let c = v[i];
        if !('0' <= c && c <= '9') {
            assert(d[(i - start) as int] == v@[i as int]);
            assert(!is_digit(d[(i - start) as int]));
            return None;
        }
        assert(v@.subrange(start as int, i + 1).drop_last() =~= v@.subrange(start as int, i as int));
        assert(v@.subrange(start as int, i + 1).last() == c);
        let next: u32 = n * 10 + ((c as u32) - 48);
        assert(next == digits_number(v@.subrange(start as int, i + 1)));
        if next > 255 {
            proof {
                if all_digits(d) {
                    assert(d.take(i + 1 - start) =~= v@.subrange(start as int, i + 1));
                    lemma_digits_number_grows(d, i + 1 - start);
                }
            }
            return None;
        }
        n = next;
        i = i + 1;
    }
    assert(v@.subrange(start as int, v.len() as int) =~= d);
    Some(n as u8)
}

/// The heading tag for a level: `h1`..`h5` for levels one to five, `h6` otherwise.
pub open spec fn level_tag(n: u8) -> Seq<char> {
    if n == 1 {
        "h1"@
    } else if n == 2 {
        "h2"@
    } else if n == 3 {
        "h3"@
    } else if n == 4 {
        "h4"@
    } else if n == 5 {
        "h5"@
    } else {
        "h6"@
    }
}

/// The heading tag for a level.
pub fn level_tag_of(n: u8) -> (r: &'static str)
    ensures
        r@ == level_tag(n),
{
    if n == 1 {
        "h1"
    } else if n == 2 {
        "h2"
    } else if n == 3 {
        "h3"
    } else if n == 4 {
        "h4"
    } else if n == 5 {
        "h5"
    } else {
        "h6"
    }
}

/// Characters without `-` and spaces.
pub open spec fn without_dashes(s: Seq<char>) -> Seq<char>
    decreases s.len(),
{
    if s.len() == 0 {
        Seq::empty()
    } else if s.last() == '-' || s.last() == ' ' {
        without_dashes(s.drop_last())
    } else {
        without_dashes(s.drop_last()).push(s.last())
    }
}

/// The HTML heading tag of a paragraph style: styles named like `Heading1`,
/// `heading 3` or `Heading-2` (case and dashes/spaces ignored) followed by a
/// number give `h1`..`h5`, and `h6` from level six on (and for level zero).
pub open spec fn heading_of(style: Seq<char>) -> Option<Seq<char>> {
    let s = without_dashes(ascii_lower(style));
    if s.len() >= 7 && s.take(7) == "heading"@ {
        match parsed_u8(s.skip(7)) {
            Some(n) => Some(level_tag(n)),
            None => None,
        }
    } else {
        None
    }
}

/// Heading tag for a Word paragraph style (`Heading1` → `h1`, `heading 3` → `h3`),
/// `None` for other styles.
pub fn heading_tag(style: &str) -> (r: Option<&'static str>)
    ensures
        match r {
            Some(t) => heading_of(style@) == Some(t@),
            None => heading_of(style@) is None,
        },
{
    let low = lower_ascii_chars(&chars_of(style));
    let mut s: Vec<char> = Vec::new();
    let mut i: usize = 0;
    while i < low.len()
        invariant
            i <= low.len(),
            s@ == without_dashes(low@.take(i as int)),
        decreases low.len() - i,
    {
        let c = low[i];
        proof {
            assert(low@.take(i + 1).drop_last() =~= low@.take(i as int));
        }
        if c != '-' && c != ' ' {
            s.push(c);
        }
        i = i + 1;
    }
    assert(low@.take(low.len() as int) =~= low@);
    if s.len() < 7 {
        return None;
    }
    let mut head: Vec<char> = Vec::new();
    let mut k: usize = 0;
    while k < 7
        invariant
            k <= 7 <= s.len(),
            head@ == s@.take(k as int),
        decreases 7 - k,
    {
        head.push(s[k]);
        assert(s@.take(k + 1) =~= s@.take(k as int).push(s@[k as int]));
        k = k + 1;
    }
    if !is_word(&head, "heading") {
        return None;
    }
    match parse_u8(&s, 7) {
        Some(n) => Some(level_tag_of(n)),
        None => None,
    }
}

/// The value of the first attribute called `key`.
pub open spec fn attr_value(attrs: Seq<(String, String)>, key: Seq<char>) -> Option<Seq<char>>
    decreases attrs.len(),
{
    if attrs.len() == 0 {
        None
    } else if attrs[0].0@ == key {
        Some(attrs[0].1@)
    } else {
        attr_value(attrs.drop_first(), key)
    }
}

/// The value of the attribute `key` of a tag, if it has one.
pub fn attr(tag: &XmlTag, key: &str) -> (r: Option<String>)
    ensures
        match r {
            Some(v) => attr_value(tag.attrs@, key@) == Some(v@),
            None => attr_value(tag.attrs@, key@) is None,
        },
{
    let k = chars_of(key);
    let mut i: usize = 0;
    assert(tag.attrs@.skip(0) =~= tag.attrs@);
    while i < tag.attrs.len()
        invariant
            i <= tag.attrs.len(),
            k@ == key@,
            attr_value(tag.attrs@, key@) == attr_value(tag.attrs@.skip(i as int), key@),
        decreases tag.attrs.len() - i,
    {
        let ghost rest = tag.attrs@.skip(i as int);
        assert(rest[0] == tag.attrs@[i as int]);
        if is_word(&k, tag.attrs[i].0.as_str()) {
            return Some(tag.attrs[i].1.clone());
        }
        assert(rest.drop_first() =~= tag.attrs@.skip(i + 1));
        i = i + 1;
    }
    None
}

/// The HTML being assembled, as a model.
pub struct PageModel {
    pub html: Seq<char>,
    /// The table cell being filled, if any.
    pub cell: Option<Seq<char>>,
    pub list_open: bool,
}

/// Closes an open bullet list.
pub open spec fn closed_list(o: PageModel) -> PageModel {
    if o.list_open {
        PageModel { html: o.html + "</ul>"@, list_open: false, ..o }
    } else {
        o
    }
}

/// Appends raw markup, closing an open list first.
pub open spec fn with_raw(o: PageModel, s: Seq<char>) -> PageModel {
    let c = closed_list(o);
    PageModel { html: c.html + s, ..c }
}

/// Adds a block (paragraph, heading or list item) with the given body: blank
/// bodies are dropped; inside a table cell the body joins the cell (separated
/// by `<br>`); list items share one `<ul>`; any other block closes the list.
pub open spec fn with_block(o: PageModel, tag: Seq<char>, body: Seq<char>) -> PageModel {
    if blank(body) {
        o
    } else if o.cell is Some {
        let c = o.cell->0;
        PageModel {
            cell: Some(
                if c.len() > 0 {
                    c + "<br>"@ + body
                } else {
                    body
                },
            ),
            ..o
        }
    } else if tag == "li"@ {
        let h = if o.list_open {
            o.html
        } else {
            o.html + "<ul>"@
        };
        PageModel { html: h + "<li>"@ + body + "</li>"@, list_open: true, ..o }
    } else {
        let c = closed_list(o);
        PageModel { html: c.html + "<"@ + tag + ">"@ + body + "</"@ + tag + ">"@, ..c }
    }
}

/// List items in a row share one list: a second item right after a first one
/// adds only its own `<li>`, and the list stays open for more.
pub proof fn law_list_items_share_one_list(o: PageModel, first: Seq<char>, second: Seq<char>)
    requires
        o.cell is None,
        !blank(first),
        !blank(second),
    ensures
        with_block(with_block(o, "li"@, first), "li"@, second).html == with_block(
            o,
            "li"@,
            first,
        ).html + "<li>"@ + second + "</li>"@,
        with_block(with_block(o, "li"@, first), "li"@, second).list_open,
{
}

/// HTML under construction: paragraphs go either into the current table cell
/// or to the top level.
pub struct Page {
    pub html: String,
    pub cell: Option<String>,
    pub list_open: bool,
}

impl Page {
    /// The page as a model.
    pub open spec fn model(&self) -> PageModel {
        PageModel {
            html: self.html@,
            cell: match self.cell {
                Some(c) => Some(c@),
                None => None,
            },
            list_open: self.list_open,
        }
    }

    /// An empty page.
    pub fn new() -> (r: Page)
        ensures
            r.model() == (PageModel { html: Seq::empty(), cell: None, list_open: false }),
    {
        Page { html: String::new(), cell: None, list_open: false }
    }

    /// Adds a block with the given tag and body (see `with_block`).
    pub fn block(&mut self, tag: &str, body: &str)
        ensures
            final(self).model() == with_block(old(self).model(), tag@, body@),
    {
        let b = chars_of(body);
        let n = b.len();
        if is_blank_chars(&b) {
            return;
        }
        match self.cell.take() {
            Some(mut c) => {
                if !c.as_str().is_empty() {
                    c.append("<br>");
                }
                proof {
                    if c@.len() == 0 {
                        assert(c@ + body@ =~= body@);
                    }
                }
                c.append(body);
                self.cell = Some(c);
                return;
            },
            None => {},
        }
        if is_word(&chars_of(tag), "li") {
            if !self.list_open {
                self.html.append("<ul>");
                self.list_open = true;
            }
            self.html.append("<li>");
            self.html.append(body);
            self.html.append("</li>");
            return;
        }
        self.close_list();
        self.html.append("<");
        self.html.append(tag);
        self.html.append(">");
        self.html.append(body);
        self.html.append("</");
        self.html.append(tag);
        self.html.append(">");
    }

    /// Closes an open bullet list.
    pub fn close_list(&mut self)
        ensures
            final(self).model() == closed_list(old(self).model()),
    {
        if self.list_open {
            self.html.append("</ul>");
            self.list_open = false;
        }
    }

    /// Appends raw markup, closing an open list first.
    pub fn raw(&mut self, s: &str)
        ensures
            final(self).model() == with_raw(old(self).model(), s@),
    {
        self.close_list();
        self.html.append(s);
    }
}

/// `char::is_whitespace`.
pub fn white_char(c: char) -> (r: bool)
    ensures
        r == crate::formats::table::is_white(c),
{
    ('\u{9}' <= c && c <= '\u{d}') || c == ' ' || c == '\u{85}' || c == '\u{a0}' || c == '\u{1680}'
        || ('\u{2000}' <= c && c <= '\u{200a}') || c == '\u{2028}' || c == '\u{2029}' || c
        == '\u{202f}' || c == '\u{205f}' || c == '\u{3000}'
}

/// Whether every character is white space.
fn is_blank_chars(v: &Vec<char>) -> (r: bool)
    ensures
        r == blank(v@),
{
    let mut i: usize = 0;
    while i < v.len()
        invariant
            i <= v.len(),
            forall|j: int| 0 <= j < i ==> crate::formats::table::is_white(#[trigger] v@[j]),
        decreases v.len() - i,
    {
        let c = v[i];
        let white = ('\u{9}' <= c && c <= '\u{d}') || c == ' ' || c == '\u{85}' || c == '\u{a0}' || c
            == '\u{1680}' || ('\u{2000}' <= c && c <= '\u{200a}') || c == '\u{2028}' || c
            == '\u{2029}' || c == '\u{202f}' || c == '\u{205f}' || c == '\u{3000}';
        if !white {
            return false;
        }
        i = i + 1;
    }
    true
}

} // verus!
