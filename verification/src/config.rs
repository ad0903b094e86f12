//! The plain `key=value` configuration text: one shared line classifier
//! drives both reading the entries out and rewriting one entry in place
//! while every comment line is preserved.

use vstd::prelude::*;

use crate::error::Error;
use crate::kv::{assoc_map, lemma_assoc_first_match, lemma_assoc_no_match};
use crate::strutil::{index_of, spec_trim, split, split_str, trim_str, find_char};

verus! {

/// A line without its one trailing carriage return, if it has one.
pub open spec fn strip_cr(l: Seq<char>) -> Seq<char> {
    if l.len() > 0 && l.last() == '\r' {
        l.drop_last()
    } else {
        l
    }
}

/// The lines of a text: split at every newline, with no empty final line
/// for a text that ends in one, and one trailing carriage return stripped
/// from each line — from the last line too, even when no newline follows
/// it.
pub open spec fn spec_lines(s: Seq<char>) -> Seq<Seq<char>> {
    if s.len() == 0 {
        Seq::empty()
    } else {
        let p = split(s, '\n');
        let q = if s.last() == '\n' {
            p.drop_last()
        } else {
            p
        };
        q.map_values(|l: Seq<char>| strip_cr(l))
    }
}

/// Cuts a text into lines, as `spec_lines` describes.
pub fn split_lines(s: &str) -> (r: Vec<String>)
    ensures
        r.deep_view() == spec_lines(s@),
{
    let n = s.unicode_len();
    if n == 0 {
        let r: Vec<String> = Vec::new();
        proof {
            assert(r.deep_view() =~= spec_lines(s@));
        }
        return r;
    }
    let mut parts = split_str(s, '\n');
    if s.get_char(n - 1) == '\n' {
        proof {
            assert(s@.last() == '\n');
        }
        parts.pop();
    }
    let ghost q = if s@.last() == '\n' {
        split(s@, '\n').drop_last()
    } else {
        split(s@, '\n')
    };
    proof {
        assert(parts.deep_view() =~= q);
    }
    let mut out: Vec<String> = Vec::new();
    let mut i: usize = 0;
    proof {
        assert(out.deep_view() =~= q.map_values(|l: Seq<char>| strip_cr(l)).take(0));
    }
    while i < parts.len()
        invariant
            i <= parts.len(),
            parts.deep_view() == q,
            out.deep_view() == q.map_values(|l: Seq<char>| strip_cr(l)).take(i as int),
        decreases parts.len() - i,
    {
        let ghost prev = out.deep_view();
        let p = &parts[i];
        let m = p.as_str().unicode_len();
        if m > 0 && p.as_str().get_char(m - 1) == '\r' {
            out.push(p.as_str().substring_char(0, m - 1).to_owned());
            proof {
                assert(p@.subrange(0, m - 1) =~= strip_cr(q[i as int]));
            }
        } else {
            out.push(p.clone());
            proof {
                assert(p@ == strip_cr(q[i as int]));
            }
        }
        proof {
            assert(out.deep_view() =~= prev.push(strip_cr(q[i as int])));
            assert(out.deep_view() =~= q.map_values(|l: Seq<char>| strip_cr(l)).take(i + 1));
        }
        i += 1;
    }
    proof {
        assert(q.map_values(|l: Seq<char>| strip_cr(l)).take(parts.len() as int) =~= spec_lines(
            s@,
        ));
    }
    out
}

/// What one configuration line is.
pub enum LineClass {
    /// A blank line or a comment; kept verbatim when rewriting.
    Comment,
    /// A `key=value` line, with any trailing same-line comment.
    Entry { key: String, value: String, trailing: String },
    /// A line that is neither; it stops the parse.
    Invalid,
}

/// The mathematical value of a [`LineClass`].
pub ghost enum LineClassView {
    Comment,
    Entry { key: Seq<char>, value: Seq<char>, trailing: Seq<char> },
    Invalid,
}

impl View for LineClass {
    type V = LineClassView;

    open spec fn view(&self) -> LineClassView {
        match self {
            LineClass::Comment => LineClassView::Comment,
            LineClass::Entry { key, value, trailing } => LineClassView::Entry {
                key: key@,
                value: value@,
                trailing: trailing@,
            },
            LineClass::Invalid => LineClassView::Invalid,
        }
    }
}

/// How one line reads: a trimmed line that is empty or starts the comment
/// mark is a comment; otherwise everything from a comment mark on is a
/// trailing comment, and the rest must be exactly `key=value`, with key and
/// value trimmed of surrounding whitespace.
pub open spec fn classify_spec(line: Seq<char>) -> LineClassView {
    let t = spec_trim(line);
    if t.len() == 0 || t[0] == '#' {
        LineClassView::Comment
    } else {
        let h = index_of(t, '#');
        let body = if h >= 0 {
            t.take(h)
        } else {
            t
        };
        let trailing = if h >= 0 {
            t.skip(h)
        } else {
            Seq::<char>::empty()
        };
        let parts = split(spec_trim(body), '=');
        if parts.len() != 2 {
            LineClassView::Invalid
        } else {
            LineClassView::Entry {
                key: spec_trim(parts[0]),
                value: spec_trim(parts[1]),
                trailing,
            }
        }
    }
}

/// Classifies one configuration line.
pub fn classify_line(line: &str) -> (r: LineClass)
    ensures
        r@ == classify_spec(line@),
{
    let t = trim_str(line);
    let tn = t.as_str().unicode_len();
    if tn == 0 || t.as_str().get_char(0) == '#' {
        return LineClass::Comment;
    }
    let h = find_char(t.as_str(), '#');
    proof {
        crate::strutil::lemma_index_of(t@, '#');
    }
    let (body, trailing) = match h {
        Some(idx) => {
            let b = t.as_str().substring_char(0, idx).to_owned();
            let c = t.as_str().substring_char(idx, tn).to_owned();
            proof {
                assert(b@ =~= spec_trim(line@).take(idx as int));
                assert(c@ =~= spec_trim(line@).skip(idx as int));
            }
            (b, c)
        },
        None => (t, String::new()),
    };
    let bt = trim_str(body.as_str());
    let parts = split_str(bt.as_str(), '=');
    proof {
        assert(parts.deep_view().len() == parts.len());
    }
    if parts.len() != 2 {
        return LineClass::Invalid;
    }
    let key = trim_str(parts[0].as_str());
    let value = trim_str(parts[1].as_str());
    LineClass::Entry { key, value, trailing }
}

/// The entries a text yields, folded line by line into `acc` with the last
/// write to a key winning, and whether every line parsed; an invalid line
/// stops the fold and keeps what stood before it.
pub open spec fn collect_spec(lines: Seq<Seq<char>>, acc: Map<Seq<char>, Seq<char>>) -> (
    Map<Seq<char>, Seq<char>>,
    bool,
)
    decreases lines.len(),
{
    if lines.len() == 0 {
        (acc, true)
    } else {
        match classify_spec(lines[0]) {
            LineClassView::Comment => collect_spec(lines.drop_first(), acc),
            LineClassView::Entry { key, value, trailing } => collect_spec(
                lines.drop_first(),
                acc.insert(key, value),
            ),
            LineClassView::Invalid => (acc, false),
        }
    }
}

/// Reads every `key=value` entry out of a configuration text; the flag says
/// whether every line parsed.
pub fn collect_entries(text: &str) -> (r: (Vec<(String, String)>, bool))
    ensures
        assoc_map(r.0@) == collect_spec(spec_lines(text@), Map::empty()).0,
        r.1 == collect_spec(spec_lines(text@), Map::empty()).1,
{
    let lines = split_lines(text);
    let ghost all = spec_lines(text@);
    let mut entries: Vec<(String, String)> = Vec::new();
    let mut i: usize = 0;
    proof {
        assert(lines.deep_view().skip(0) =~= all);
        assert(assoc_map(entries@) =~= Map::<Seq<char>, Seq<char>>::empty());
    }
    while i < lines.len()
        invariant
            i <= lines.len(),
            all == spec_lines(text@),
            lines.deep_view() == all,
            lines.deep_view().len() == lines.len(),
            collect_spec(all, Map::empty()) == collect_spec(
                all.skip(i as int),
                assoc_map(entries@),
            ),
        decreases lines.len() - i,
    {
        let ghost rest = all.skip(i as int);
        proof {
            assert(lines[i as int]@ == all[i as int]);
            assert(rest[0] == all[i as int]);
            assert(rest.drop_first() =~= all.skip(i + 1));
        }
        match classify_line(lines[i].as_str()) {
            LineClass::Comment => {
                proof {
                    assert(collect_spec(rest, assoc_map(entries@)) == collect_spec(
                        rest.drop_first(),
                        assoc_map(entries@),
                    ));
                }
            },
            LineClass::Entry { key, value, trailing } => {
                let ghost k = key@;
                let ghost v = value@;
                let ghost before = entries@;
                proof {
                    assert(collect_spec(rest, assoc_map(before)) == collect_spec(
                        rest.drop_first(),
                        assoc_map(before).insert(k, v),
                    ));
                }
                entries.insert(0, (key, value));
                proof {
                    assert(entries@.drop_first() =~= before);
                    assert(entries@[0].0@ == k && entries@[0].1@ == v);
                }
            },
            LineClass::Invalid => {
                proof {
                    assert(collect_spec(rest, assoc_map(entries@)) == (assoc_map(entries@), false));
                    assert(collect_spec(all, Map::empty()).0 == assoc_map(entries@));
                    assert(collect_spec(all, Map::empty()).1 == false);
                }
                return (entries, false);
            },
        }
        i += 1;
    }
    proof {
        assert(all.skip(lines.len() as int) =~= Seq::<Seq<char>>::empty());
    }
    (entries, true)
}

/// The rewritten configuration text, folded line by line onto `acc`:
/// comment lines are kept verbatim, an entry line is written back as
/// `key=value` with the matching key's value replaced, a trailing comment
/// moves to its own line, and an invalid line fails the whole rewrite.
pub open spec fn rewrite_spec(
    lines: Seq<Seq<char>>,
    key: Seq<char>,
    value: Seq<char>,
    acc: Seq<char>,
) -> Option<Seq<char>>
    decreases lines.len(),
{
    if lines.len() == 0 {
        Some(acc)
    } else {
        match classify_spec(lines[0]) {
            LineClassView::Comment => rewrite_spec(
                lines.drop_first(),
                key,
                value,
                acc + lines[0] + seq!['\n'],
            ),
            LineClassView::Entry { key: k, value: v, trailing } => {
                let newv = if k == key {
                    value
                } else {
                    v
                };
                let entry_out = k + seq!['='] + newv + seq!['\n'];
                let with_trailing = if trailing.len() > 0 {
                    entry_out + trailing + seq!['\n']
                } else {
                    entry_out
                };
                rewrite_spec(lines.drop_first(), key, value, acc + with_trailing)
            },
            LineClassView::Invalid => None,
        }
    }
}

/// Rewrites a configuration text so that the entry under `key` carries
/// `value`, preserving comments and the order of lines; fails, writing
/// nothing, when some line is neither comment nor entry.
pub fn rewrite_config(text: &str, key: &str, value: &str) -> (r: Result<String, Error>)
    ensures
        match r {
            Ok(v) => rewrite_spec(spec_lines(text@), key@, value@, Seq::empty()) == Some(v@),
            Err(e) => rewrite_spec(spec_lines(text@), key@, value@, Seq::empty()) is None && e
                == Error::Validation,
        },
{
    proof {
        reveal_strlit("\n");
        reveal_strlit("=");
        assert("\n"@ =~= seq!['\n']);
        assert("="@ =~= seq!['=']);
    }
    let key_owned = key.to_owned();
    let lines = split_lines(text);
    let ghost all = spec_lines(text@);
    let mut out = String::new();
    let mut i: usize = 0;
    proof {
        assert(lines.deep_view().skip(0) =~= all);
    }
    while i < lines.len()
        invariant
            i <= lines.len(),
            all == spec_lines(text@),
            lines.deep_view() == all,
            lines.deep_view().len() == lines.len(),
            key_owned@ == key@,
            rewrite_spec(all, key@, value@, Seq::empty()) == rewrite_spec(
                all.skip(i as int),
                key@,
                value@,
                out@,
            ),
            "\n"@ == seq!['\n'],
            "="@ == seq!['='],
        decreases lines.len() - i,
    {
        let ghost rest = all.skip(i as int);
        let ghost out0 = out@;
        proof {
            assert(lines[i as int]@ == all[i as int]);
            assert(rest[0] == all[i as int]);
            assert(rest.drop_first() =~= all.skip(i + 1));
        }
        match classify_line(lines[i].as_str()) {
            LineClass::Comment => {
                out.append(lines[i].as_str());
                out.append("\n");
                proof {
                    assert(out@ =~= out0 + rest[0] + seq!['\n']);
                    assert(rewrite_spec(rest, key@, value@, out0) == rewrite_spec(
                        rest.drop_first(),
                        key@,
                        value@,
                        out0 + rest[0] + seq!['\n'],
                    ));
                }
            },
            LineClass::Entry { key: k, value: v, trailing } => {
                let ghost ks = k@;
                let ghost vs = v@;
                let ghost ts = trailing@;
                out.append(k.as_str());
                out.append("=");
                if k == key_owned {
                    out.append(value);
                } else {
                    out.append(v.as_str());
                }
                out.append("\n");
                if !trailing.as_str().is_empty() {
                    out.append(trailing.as_str());
                    out.append("\n");
                }
                proof {
                    let newv = if ks == key@ {
                        value@
                    } else {
                        vs
                    };
                    let entry_out = ks + seq!['='] + newv + seq!['\n'];
                    let with_trailing = if ts.len() > 0 {
                        entry_out + ts + seq!['\n']
                    } else {
                        entry_out
                    };
                    assert(out@ =~= out0 + with_trailing);
                    assert(rewrite_spec(rest, key@, value@, out0) == rewrite_spec(
                        rest.drop_first(),
                        key@,
                        value@,
                        out0 + with_trailing,
                    ));
                }
            },
            LineClass::Invalid => {
                proof {
                    assert(rewrite_spec(rest, key@, value@, out0) is None);
                    assert(rewrite_spec(all, key@, value@, Seq::empty()) is None);
                }
                return Err(Error::Validation);
            },
        }
        i += 1;
    }
    proof {
        assert(all.skip(lines.len() as int) =~= Seq::<Seq<char>>::empty());
    }
    Ok(out)
}

/// The command-line inputs the configuration draws on: an optional
/// configuration file path, an optional domains file path, and a token that
/// overrides the configured one when non-empty.
pub struct Args {
    pub config_file: Option<String>,
    pub domains_file: Option<String>,
    pub cloudflare_token: String,
}

/// The mathematical value of a [`Config`].
pub ghost struct ConfigView {
    pub token: Seq<char>,
    pub domains_file: Option<Seq<char>>,
    pub entries: Map<Seq<char>, Seq<char>>,
}

/// The settings one run works from: the token given on the command line,
/// the domains file path given there, and the entries read from the
/// configuration text.
pub struct Config {
    cloudflare_token: String,
    domains_file: Option<String>,
    entries: Vec<(String, String)>,
}

impl View for Config {
    type V = ConfigView;

    closed spec fn view(&self) -> ConfigView {
        ConfigView {
            token: self.cloudflare_token@,
            domains_file: self.domains_file.deep_view(),
            entries: assoc_map(self.entries@),
        }
    }
}

/// An owned copy of an optional string, equal to the original.
pub fn clone_opt_string(o: &Option<String>) -> (r: Option<String>)
    ensures
        r == *o,
{
    match o {
        Some(s) => Some(s.clone()),
        None => None,
    }
}

/// The configuration file to read: the path given on the command line, or
/// the default.
pub fn config_file_path(args: &Args) -> (r: String)
    ensures
        r@ == match args.config_file.deep_view() {
            Some(p) => p,
            None => "cf-dynamic.conf"@,
        },
{
    match &args.config_file {
        Some(p) => p.clone(),
        None => "cf-dynamic.conf".to_owned(),
    }
}

impl Config {
    /// Builds the run's settings from the command-line inputs and the text
    /// of the configuration file. Entries collected before an invalid line
    /// are kept; the invalid tail is ignored.
    pub fn new(args: &Args, config_text: &str) -> (c: Config)
        ensures
            c@.token == args.cloudflare_token@,
            c@.domains_file == args.domains_file.deep_view(),
            c@.entries == collect_spec(spec_lines(config_text@), Map::empty()).0,
    {
        let collected = collect_entries(config_text);
        Config {
            cloudflare_token: args.cloudflare_token.clone(),
            domains_file: clone_opt_string(&args.domains_file),
            entries: collected.0,
        }
    }

    /// The configured value under `key`, if one was read.
    pub fn read_config_entry(&self, key: &str) -> (r: Option<&String>)
        ensures
            match r {
                Some(v) => self@.entries.contains_key(key@) && v@ == self@.entries[key@],
                None => !self@.entries.contains_key(key@),
            },
    {
        let key_owned = key.to_owned();
        let mut i: usize = 0;
        while i < self.entries.len()
            invariant
                i <= self.entries.len(),
                key_owned@ == key@,
                forall|j: int| 0 <= j < i ==> #[trigger] self.entries@[j].0@ != key@,
            decreases self.entries.len() - i,
        {
            if self.entries[i].0 == key_owned {
                proof {
                    lemma_assoc_first_match(self.entries@, key@, i as int);
                }
                return Some(&self.entries[i].1);
            }
            i += 1;
        }
        proof {
            lemma_assoc_no_match(self.entries@, key@);
        }
        None
    }

    /// Whether a token is available at all, from the command line or the
    /// configuration; only then may the token be read.
    pub fn has_cloudflare_token(&self) -> (r: bool)
        ensures
            r == (self@.token.len() > 0 || self@.entries.contains_key("cloudflare_token"@)),
    {
        if !self.cloudflare_token.as_str().is_empty() {
            return true;
        }
        match self.read_config_entry("cloudflare_token") {
            Some(_) => true,
            None => false,
        }
    }

    /// The provider token for this run: the one given on the command line
    /// when non-empty, else the configured one, which must then exist.
    pub fn read_cloudflare_token(&self) -> (r: String)
        requires
            self@.token.len() > 0 || self@.entries.contains_key("cloudflare_token"@),
        ensures
            r@ == if self@.token.len() > 0 {
                self@.token
            } else {
                self@.entries["cloudflare_token"@]
            },
    {
        if !self.cloudflare_token.as_str().is_empty() {
            return self.cloudflare_token.clone();
        }
        match self.read_config_entry("cloudflare_token") {
            Some(v) => v.clone(),
            None => {
                proof {
                    assert(false);
                }
                String::new()
            },
        }
    }

    /// The domains file to read: the path given on the command line, else
    /// the configured one, else the default.
    pub fn read_domains_file_path(&self) -> (r: String)
        ensures
            r@ == match self@.domains_file {
                Some(d) => d,
                None => if self@.entries.contains_key("domains_file"@) {
                    self@.entries["domains_file"@]
                } else {
                    "domains.json"@
                },
            },
    {
        match &self.domains_file {
            Some(d) => d.clone(),
            None => match self.read_config_entry("domains_file") {
                Some(v) => v.clone(),
                None => "domains.json".to_owned(),
            },
        }
    }
}

} // verus!
