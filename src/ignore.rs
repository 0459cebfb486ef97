use vstd::prelude::*;

use crate::path::{file_name, file_name_of};
use crate::pattern::{regex_compiles, regex_is_match, Pattern};
use crate::config::{trim, trimmed};
use crate::text::{split_tokens, substring, tokens, views, Separator};

verus! {

/// The built-in rule: any name that begins with a dot.
pub open spec fn dot_rule() -> Seq<char> {
    "\\..*"@
}

/// A rule as it is applied: it must match the whole name.
pub open spec fn anchored(p: Seq<char>) -> Seq<char> {
    "^(?:"@ + p + ")$"@
}

/// A rule is kept when it is a valid regular expression, also once
/// anchored.
pub open spec fn usable(p: Seq<char>) -> bool {
    regex_compiles(p) && regex_compiles(anchored(p))
}

pub open spec fn kept(raw: Seq<Seq<char>>) -> Seq<Seq<char>> {
    raw.filter(|p: Seq<char>| usable(p))
}

/// Whether `path` has a file name and some rule matches the whole of it.
pub open spec fn ignored_by(rules: Seq<Seq<char>>, path: Seq<char>) -> bool {
    file_name(path) matches Some(n) && exists|i: int|
        0 <= i < rules.len() && regex_is_match(anchored(rules[i]), n)
}

/// A line without the `\r` that ends it in a CRLF file.
pub open spec fn strip_cr(l: Seq<char>) -> Seq<char> {
    if l.len() > 0 && l.last() == '\r' {
        l.drop_last()
    } else {
        l
    }
}

/// The rules that lines of an ignore file state: every line that is not
/// blank, without a trailing `\r`.
pub open spec fn rule_lines(lines: Seq<Seq<char>>) -> Seq<Seq<char>>
    decreases lines.len(),
{
    if lines.len() == 0 {
        Seq::empty()
    } else {
        let prev = rule_lines(lines.drop_last());
        if trimmed(lines.last()).len() == 0 {
            prev
        } else {
            prev.push(strip_cr(lines.last()))
        }
    }
}

fn without_cr(l: &str) -> (r: String)
    ensures
        r@ == strip_cr(l@),
{
    let n = l.unicode_len();
    if n > 0 && l.get_char(n - 1) == '\r' {
        let r = substring(l, 0, n - 1);
        proof {
            assert(r@ =~= l@.drop_last());
        }
        r
    } else {
        String::from_str(l)
    }
}

proof fn lemma_kept_step(s: Seq<Seq<char>>)
    requires
        s.len() > 0,
    ensures
        kept(s) == if usable(s.last()) {
            kept(s.drop_last()).push(s.last())
        } else {
            kept(s.drop_last())
        },
{
    reveal_with_fuel(Seq::filter, 1);
}

/// Rules that hide paths from the repository scan.
pub struct IgnorePatterns {
    filters: Vec<String>,
    rules: Vec<Pattern>,
}

fn anchor(p: &str) -> (r: String)
    ensures
        r@ == anchored(p@),
{
    let mut s = String::from_str("^(?:");
    s.append(p);
    s.append(")$");
    s
}

impl IgnorePatterns {
    /// The rules in force, in order.
    pub closed spec fn patterns(&self) -> Seq<Seq<char>> {
        views(self.filters@)
    }

    pub closed spec fn wf(&self) -> bool {
        &&& self.rules@.len() == self.filters@.len()
        &&& forall|i: int|
            0 <= i < self.rules@.len() ==> (#[trigger] self.rules@[i]).source() == anchored(
                self.filters@[i]@,
            )
    }

    /// The rules of `raw` that are valid regular expressions, compiled
    /// once; the others are dropped.
    pub fn from_patterns(raw: &Vec<String>) -> (r: Self)
        ensures
            r.wf(),
            r.patterns() == kept(views(raw@)),
    {
        let mut filters: Vec<String> = Vec::new();
        let mut rules: Vec<Pattern> = Vec::new();
        let ghost rs = views(raw@);
        let mut i: usize = 0;
        proof {
            assert(rs.take(0) =~= Seq::<Seq<char>>::empty());
            assert(views(filters@) =~= kept(rs.take(0)));
        }
        while i < raw.len()
            invariant
                rs == views(raw@),
                i <= raw@.len(),
                views(filters@) == kept(rs.take(i as int)),
                rules@.len() == filters@.len(),
                forall|k: int|
                    0 <= k < rules@.len() ==> (#[trigger] rules@[k]).source() == anchored(filters@[k]@),
            decreases raw@.len() - i,
        {
            let p = raw[i].as_str();
            proof {
                assert(rs.take(i + 1).drop_last() =~= rs.take(i as int));
                assert(rs.take(i + 1).last() == p@);
                lemma_kept_step(rs.take(i + 1));
            }
            let plain = Pattern::compile(p);
            let full = Pattern::compile(anchor(p).as_str());
            match (plain, full) {
                (Some(_), Some(rule)) => {
                    let ghost before = filters@;
                    filters.push(String::from_str(p));
                    rules.push(rule);
                    proof {
                        assert(views(filters@) =~= views(before).push(p@));
                    }
                },
                _ => {},
            }
            i = i + 1;
        }
        proof {
            assert(rs.take(raw@.len() as int) =~= rs);
        }
        IgnorePatterns { filters, rules }
    }

    /// The built-in rule and, if an ignore file could be read, one rule for
    /// each of its lines that is not blank, without a trailing `\r`;
    /// invalid rules are dropped. Never fails.
    pub fn find_or_default(ignore_file: Option<&str>) -> (r: Self)
        ensures
            r.wf(),
            r.patterns() == kept(
                seq![dot_rule()] + match ignore_file {
                    Some(c) => rule_lines(tokens(c@, Separator::Char('\n'))),
                    None => Seq::empty(),
                },
            ),
    {
        let mut raw: Vec<String> = Vec::new();
        raw.push(String::from_str("\\..*"));
        let ghost first = views(raw@);
        match ignore_file {
            Some(c) => {
                let lines = split_tokens(c, Separator::Char('\n'));
                let ghost ls = views(lines@);
                let mut i: usize = 0;
                proof {
                    assert(ls.take(0) =~= Seq::<Seq<char>>::empty());
                    assert(views(raw@) =~= first + rule_lines(ls.take(0)));
                }
                while i < lines.len()
                    invariant
                        ls == views(lines@),
                        i <= lines@.len(),
                        views(raw@) == first + rule_lines(ls.take(i as int)),
                    decreases lines@.len() - i,
                {
                    let l = lines[i].as_str();
                    proof {
                        assert(ls.take(i + 1).drop_last() =~= ls.take(i as int));
                        assert(ls.take(i + 1).last() == l@);
                    }
                    if trim(l).unicode_len() > 0 {
                        let rule = without_cr(l);
                        let ghost before = views(raw@);
                        raw.push(rule);
                        proof {
                            assert(views(raw@) =~= before.push(rule@));
                            assert(views(raw@) =~= first + rule_lines(ls.take(i + 1)));
                        }
                    }
                    i = i + 1;
                }
                proof {
                    assert(ls.take(lines@.len() as int) =~= ls);
                }
            },
            None => {},
        }
        proof {
            assert(views(raw@) =~= seq![dot_rule()] + match ignore_file {
                Some(c) => rule_lines(tokens(c@, Separator::Char('\n'))),
                None => Seq::empty(),
            });
        }
        IgnorePatterns::from_patterns(&raw)
    }

    /// Whether `path` is hidden: it has a file name and some rule matches
    /// the whole of it.
    pub fn matches(&self, path: &str) -> (r: bool)
        requires
            self.wf(),
        ensures
            r == ignored_by(self.patterns(), path@),
    {
        let name = match file_name_of(path) {
            Some(n) => n,
            None => {
                return false;
            },
        };
        let mut i: usize = 0;
        while i < self.rules.len()
            invariant
                self.wf(),
                file_name(path@) == Some(name@),
                i <= self.rules@.len(),
                forall|k: int| 0 <= k < i ==> !regex_is_match(anchored(self.patterns()[k]), name@),
            decreases self.rules@.len() - i,
        {
            proof {
                assert(self.patterns()[i as int] == self.filters@[i as int]@);
            }
            if self.rules[i].is_match(name) {
                return true;
            }
            i = i + 1;
        }
        false
    }
}

impl Default for IgnorePatterns {
    /// The built-in rule alone.
    fn default() -> (r: Self)
        ensures
            r.wf(),
            r.patterns() == kept(seq![dot_rule()]),
    {
        IgnorePatterns::find_or_default(None)
    }
}

} // verus!
