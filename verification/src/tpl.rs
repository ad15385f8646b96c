//! Text templates with `${name}` placeholders.

use vstd::prelude::*;
use vstd::string::StringExecFns;
use vstd::string::StrSliceExecFns;
use crate::text::is_white;
use crate::text::is_white_char;
use crate::text::same_text;

verus! {

/// Characters that may form a placeholder name: ASCII letters, digits and `_`.
pub open spec fn is_name_char(c: char) -> bool {
    ('a' <= c && c <= 'z') || ('A' <= c && c <= 'Z') || ('0' <= c && c <= '9') || c == '_'
}

/// White space that may surround a placeholder name inside the braces.
pub open spec fn is_space(c: char) -> bool {
    is_white(c)
}

/// The first position at or after `i` that holds no white space.
pub open spec fn skip_spaces(t: Seq<char>, i: int) -> int
    decreases t.len() - i,
{
    if 0 <= i < t.len() && is_space(t[i]) {
        skip_spaces(t, i + 1)
    } else {
        i
    }
}

/// The first position at or after `i` that holds no name character.
pub open spec fn skip_name(t: Seq<char>, i: int) -> int
    decreases t.len() - i,
{
    if 0 <= i < t.len() && is_name_char(t[i]) {
        skip_name(t, i + 1)
    } else {
        i
    }
}

/// A placeholder found in a template: where its name starts and ends, and the
/// position just past its closing brace.
pub struct Placeholder {
    pub name_start: int,
    pub name_end: int,
    pub end: int,
}

/// The placeholder that starts at position `i` of `t`, if there is one: a
/// dollar sign, an opening brace, optional white space, a non-empty name,
/// optional white space and a closing brace.
pub open spec fn placeholder_at(t: Seq<char>, i: int) -> Option<Placeholder> {
    if 0 <= i && i + 1 < t.len() && t[i] == '$' && t[i + 1] == '{' {
        let j = skip_spaces(t, i + 2);
        let k = skip_name(t, j);
        let m = skip_spaces(t, k);
        if k > j && m < t.len() && t[m] == '}' {
            Some(Placeholder { name_start: j, name_end: k, end: m + 1 })
        } else {
            None
        }
    } else {
        None
    }
}

/// The rendering of `t` from position `i` on: each placeholder whose name is
/// bound in `vars` is replaced by the bound value, every other character is
/// kept as it is.
pub open spec fn render_from(t: Seq<char>, vars: Map<Seq<char>, Seq<char>>, i: int) -> Seq<char>
    decreases t.len() - i,
{
    if i < 0 || i >= t.len() {
        Seq::empty()
    } else {
        match placeholder_at(t, i) {
            Some(p) => {
                if p.end > i {
                    let name = t.subrange(p.name_start, p.name_end);
                    let piece = if vars.contains_key(name) {
                        vars[name]
                    } else {
                        t.subrange(i, p.end)
                    };
                    piece + render_from(t, vars, p.end)
                } else {
                    Seq::empty()
                }
            },
            None => seq![t[i]] + render_from(t, vars, i + 1),
        }
    }
}

/// The rendering of a whole template.
pub open spec fn rendered(t: Seq<char>, vars: Map<Seq<char>, Seq<char>>) -> Seq<char> {
    render_from(t, vars, 0)
}

/// The bindings held by a list of name and value pairs; a later pair
/// overrides an earlier one of the same name.
pub open spec fn bindings(entries: Seq<(String, String)>) -> Map<Seq<char>, Seq<char>>
    decreases entries.len(),
{
    if entries.len() == 0 {
        Map::empty()
    } else {
        bindings(entries.drop_last()).insert(entries.last().0@, entries.last().1@)
    }
}

fn is_name_char_exec(c: char) -> (b: bool)
    ensures
        b == is_name_char(c),
{
    ('a' <= c && c <= 'z') || ('A' <= c && c <= 'Z') || ('0' <= c && c <= '9') || c == '_'
}

fn is_space_exec(c: char) -> (b: bool)
    ensures
        b == is_space(c),
{
    is_white_char(c)
}

fn scan_spaces(t: &str, len: usize, start: usize) -> (r: usize)
    requires
        len == t@.len(),
        start <= len,
    ensures
        r == skip_spaces(t@, start as int),
        start <= r <= len,
{
    let mut i = start;
    while i < len && is_space_exec(t.get_char(i))
        invariant
            start <= i <= len,
            len == t@.len(),
            skip_spaces(t@, start as int) == skip_spaces(t@, i as int),
        decreases len - i,
    {
        i += 1;
    }
    i
}

fn scan_name(t: &str, len: usize, start: usize) -> (r: usize)
    requires
        len == t@.len(),
        start <= len,
    ensures
        r == skip_name(t@, start as int),
        start <= r <= len,
{
    let mut i = start;
    while i < len && is_name_char_exec(t.get_char(i))
        invariant
            start <= i <= len,
            len == t@.len(),
            skip_name(t@, start as int) == skip_name(t@, i as int),
        decreases len - i,
    {
        i += 1;
    }
    i
}

/// A set of named values to be put into templates.
#[derive(Debug)]
pub struct Tpl {
    entries: Vec<(String, String)>,
}

impl View for Tpl {
    type V = Map<Seq<char>, Seq<char>>;

    /// The value bound to each name.
    closed spec fn view(&self) -> Map<Seq<char>, Seq<char>> {
        bindings(self.entries@)
    }
}

impl Tpl {
    /// A template context without bindings.
    pub fn new() -> (tpl: Tpl)
        ensures
            tpl@ == Map::<Seq<char>, Seq<char>>::empty(),
    {
        Tpl { entries: Vec::new() }
    }

    /// A template context with the given bindings; a later pair overrides
    /// an earlier one of the same name.
    pub fn from_pairs(pairs: Vec<(String, String)>) -> (tpl: Tpl)
        ensures
            tpl@ == bindings(pairs@),
    {
        Tpl { entries: pairs }
    }

    /// Binds `key` to `value`, replacing an earlier binding of `key`.
    pub fn insert(&mut self, key: &str, value: &str)
        ensures
            final(self)@ == old(self)@.insert(key@, value@),
    {
        self.entries.push((String::from_str(key), String::from_str(value)));
        proof {
            assert(self.entries@.drop_last() =~= old(self).entries@);
        }
    }

    /// Looks up the value bound to `key`.
    pub fn get(&self, key: &str) -> (value: Option<&str>)
        ensures
            value matches Some(v) ==> self@.contains_key(key@) && self@[key@] == v@,
            value is None ==> !self@.contains_key(key@),
    {
        let mut i: usize = self.entries.len();
        proof {
            assert(self.entries@.subrange(0, i as int) =~= self.entries@);
        }
        while i > 0
            invariant
                i <= self.entries.len(),
                bindings(self.entries@).contains_key(key@) ==> bindings(
                    self.entries@.subrange(0, i as int),
                ).contains_key(key@),
                bindings(self.entries@).contains_key(key@) ==> bindings(self.entries@)[key@]
                    == bindings(self.entries@.subrange(0, i as int))[key@],
                bindings(self.entries@.subrange(0, i as int)).contains_key(key@) ==> bindings(
                    self.entries@,
                ).contains_key(key@),
            decreases i,
        {
            let ghost prefix = self.entries@.subrange(0, i as int);
            proof {
                if i == self.entries.len() {
                    assert(prefix =~= self.entries@);
                }
                assert(prefix.drop_last() =~= self.entries@.subrange(0, i as int - 1));
                assert(prefix.last() == self.entries@[i as int - 1]);
            }
            i -= 1;
            if same_text(self.entries[i].0.as_str(), key) {
                return Some(self.entries[i].1.as_str());
            }
        }
        proof {
            assert(self.entries@.subrange(0, 0) =~= Seq::<(String, String)>::empty());
        }
        None
    }

    /// Renders `template`: every `${name}` placeholder whose name is bound is
    /// replaced by its value; unbound placeholders and all other text stay.
    pub fn render(&self, template: &str) -> (out: String)
        ensures
            out@ == rendered(template@, self@),
    {
        let len = template.unicode_len();
        let mut out = String::new();
        let mut i: usize = 0;
        while i < len
            invariant
                i <= len,
                len == template@.len(),
                rendered(template@, self@) == out@ + render_from(template@, self@, i as int),
            decreases len - i,
        {
            let ghost t = template@;
            let ghost before = out@;
            let mut matched = false;
            if i + 1 < len && template.get_char(i) == '$' && template.get_char(i + 1) == '{' {
                let j = scan_spaces(template, len, i + 2);
                let k = scan_name(template, len, j);
                let m = scan_spaces(template, len, k);
                if k > j && m < len && template.get_char(m) == '}' {
                    let name = template.substring_char(j, k);
                    match self.get(name) {
                        Some(value) => {
                            out.append(value);
                        },
                        None => {
                            out.append(template.substring_char(i, m + 1));
                        },
                    }
                    proof {
                        let p = placeholder_at(t, i as int).unwrap();
                        assert(p.end == m + 1);
                        let piece = if self@.contains_key(name@) {
                            self@[name@]
                        } else {
                            t.subrange(i as int, p.end)
                        };
                        assert(out@ == before + piece);
                        assert(before + (piece + render_from(t, self@, p.end)) =~= (before + piece)
                            + render_from(t, self@, p.end));
                    }
                    matched = true;
                    i = m + 1;
                }
            }
            if !matched {
                out.append(template.substring_char(i, i + 1));
                proof {
                    assert(placeholder_at(t, i as int) is None);
                    assert(t.subrange(i as int, i + 1) =~= seq![t[i as int]]);
                    assert(before + (seq![t[i as int]] + render_from(t, self@, i + 1)) =~= (before
                        + seq![t[i as int]]) + render_from(t, self@, i + 1));
                }
                i += 1;
            }
        }
        assert(out@ + Seq::<char>::empty() =~= out@);
        out
    }
}

} // verus!
