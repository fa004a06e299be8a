//! The repository configuration: the `key = value` lines of its `[core]` section.
use vstd::prelude::*;
use crate::convert::string_of;
use crate::text::{chars_eq, chars_of, lines, lines_of, split_once, split_once_chars, sub_chars, trim, trim_chars};

verus! {

/// The `[core]` settings, in the order their lines appear.
#[derive(Debug, Clone)]
pub struct GitConfig {
    core: Vec<(String, String)>,
}

/// The settings that a sequence of assignments leaves: later lines win.
pub open spec fn settings(es: Seq<(Seq<char>, Seq<char>)>) -> Map<Seq<char>, Seq<char>>
    decreases es.len(),
{
    if es.len() == 0 {
        Map::empty()
    } else {
        settings(es.drop_last()).insert(es.last().0, es.last().1)
    }
}

/// The views of the stored assignments.
pub open spec fn pair_views(v: Seq<(String, String)>) -> Seq<(Seq<char>, Seq<char>)> {
    v.map_values(|p: (String, String)| (p.0@, p.1@))
}

impl View for GitConfig {
    type V = Map<Seq<char>, Seq<char>>;

    closed spec fn view(&self) -> Map<Seq<char>, Seq<char>> {
        settings(pair_views(self.core@))
    }
}

/// The section header `[name]`, when a (trimmed) line is one.
pub open spec fn section_header(line: Seq<char>) -> Option<Seq<char>> {
    if line.len() >= 2 && line[0] == '[' && line.last() == ']' {
        Some(trim(line.subrange(1, line.len() - 1)))
    } else {
        None
    }
}

/// A line that carries nothing: empty, or a `#` or `;` comment.
pub open spec fn is_blank_or_comment(line: Seq<char>) -> bool {
    line.len() == 0 || line[0] == '#' || line[0] == ';'
}

/// The assignments that configuration lines make in the `core` section, reading them
/// in order from the current `section`.
pub open spec fn core_assignments(ls: Seq<Seq<char>>, section: Seq<char>) -> Seq<(Seq<char>, Seq<char>)>
    decreases ls.len(),
{
    if ls.len() == 0 {
        seq![]
    } else {
        let line = trim(ls[0]);
        if is_blank_or_comment(line) {
            core_assignments(ls.drop_first(), section)
        } else {
            match section_header(line) {
                Some(s) => core_assignments(ls.drop_first(), s),
                None => match split_once(line, '=') {
                    Some((k, v)) => {
                        if section == seq!['c', 'o', 'r', 'e'] {
                            seq![(trim(k), trim(v))] + core_assignments(ls.drop_first(), section)
                        } else {
                            core_assignments(ls.drop_first(), section)
                        }
                    },
                    None => core_assignments(ls.drop_first(), section),
                },
            }
        }
    }
}

/// The settings that configuration text makes.
pub open spec fn config_of(text: Seq<char>) -> Map<Seq<char>, Seq<char>> {
    settings(core_assignments(lines(text), seq![]))
}

/// The last assignment to a key decides its setting.
proof fn lemma_settings_last(es: Seq<(Seq<char>, Seq<char>)>, key: Seq<char>, j: int)
    requires
        0 <= j < es.len(),
        es[j].0 == key,
        forall|k: int| j < k < es.len() ==> es[k].0 != key,
    ensures
        settings(es).contains_key(key),
        settings(es)[key] == es[j].1,
    decreases es.len(),
{
    if j < es.len() - 1 {
        lemma_settings_last(es.drop_last(), key, j);
    }
}

/// A key that no assignment names has no setting.
proof fn lemma_settings_absent(es: Seq<(Seq<char>, Seq<char>)>, key: Seq<char>)
    requires
        forall|k: int| 0 <= k < es.len() ==> es[k].0 != key,
    ensures
        !settings(es).contains_key(key),
    decreases es.len(),
{
    if es.len() > 0 {
        lemma_settings_absent(es.drop_last(), key);
    }
}

impl GitConfig {
    /// A configuration with no settings.
    pub fn empty() -> (res: GitConfig)
        ensures
            res@ == Map::<Seq<char>, Seq<char>>::empty(),
    {
        let res = GitConfig { core: Vec::new() };
        assert(pair_views(res.core@) == Seq::<(Seq<char>, Seq<char>)>::empty());
        res
    }

    /// The value of a `core` setting.
    pub fn get_core(&self, key: &str) -> (res: Option<&str>)
        ensures
            match res {
                Some(v) => self@.contains_key(key@) && v@ == self@[key@],
                None => !self@.contains_key(key@),
            },
    {
        let k = chars_of(key);
        let ghost es = pair_views(self.core@);
        let mut i: usize = self.core.len();
        while i > 0
            invariant
                i <= self.core@.len(),
                es == pair_views(self.core@),
                k@ == key@,
                forall|j: int| i <= j < es.len() ==> es[j].0 != key@,
            decreases i,
        {
            let entry = &self.core[i - 1];
            let ek = chars_of(entry.0.as_str());
            assert(es[i - 1] == (self.core@[i - 1].0@, self.core@[i - 1].1@));
            assert(entry.0@ == es[i - 1].0);
            if chars_eq(ek.as_slice(), k.as_slice()) {
                assert(ek@ == key@);
                proof {
                    lemma_settings_last(es, key@, i - 1);
                }
                return Some(entry.1.as_str());
            }
            i = i - 1;
        }
        proof {
            lemma_settings_absent(es, key@);
        }
        None
    }
}

impl Default for GitConfig {
    /// A configuration with no settings.
    fn default() -> (res: GitConfig)
        ensures
            res@ == Map::<Seq<char>, Seq<char>>::empty(),
    {
        GitConfig::empty()
    }
}

/// Reads configuration text.
pub fn parse_config(text: &str) -> (res: GitConfig)
    ensures
        res@ == config_of(text@),
{
    let chars = chars_of(text);
    let ls = lines_of(chars.as_slice());
    let ghost lv = ls@.map_values(|l: Vec<char>| l@);
    let mut core: Vec<(String, String)> = Vec::new();
    let mut section: Vec<char> = Vec::new();
    let core_name: Vec<char> = vec!['c', 'o', 'r', 'e'];
    assert(core_name@ == seq!['c', 'o', 'r', 'e']);
    let mut i: usize = 0;
    assert(lv.skip(0) == lv);
    while i < ls.len()
        invariant
            i <= ls@.len(),
            lv == ls@.map_values(|l: Vec<char>| l@),
            lv == lines(text@),
            core_name@ == seq!['c', 'o', 'r', 'e'],
            pair_views(core@) + core_assignments(lv.skip(i as int), section@) == core_assignments(
                lv,
                seq![],
            ),
        decreases ls@.len() - i,
    {
        let ghost rest = lv.skip(i as int);
        assert(rest[0] == ls@[i as int]@);
        assert(rest.drop_first() == lv.skip(i + 1));
        let line = trim_chars(ls[i].as_slice());
        let n = line.len();
        if n == 0 || line[0] == '#' || line[0] == ';' {
        } else if n >= 2 && line[0] == '[' && line[n - 1] == ']' {
            let inner = sub_chars(line.as_slice(), 1, n - 1);
            section = trim_chars(inner.as_slice());
        } else {
            match split_once_chars(line.as_slice(), '=') {
                Some((k, v)) => {
                    if chars_eq(section.as_slice(), core_name.as_slice()) {
                        let key = string_of(trim_chars(k.as_slice()).as_slice());
                        let val = string_of(trim_chars(v.as_slice()).as_slice());
                        let ghost before = pair_views(core@);
                        let ghost tail = core_assignments(lv.skip(i + 1), section@);
                        core.push((key, val));
                        assert(pair_views(core@) == before.push((key@, val@)));
                        assert(before.push((key@, val@)) + tail == before + (seq![(key@, val@)]
                            + tail));
                    }
                },
                None => {},
            }
        }
        i = i + 1;
    }
    assert(lv.skip(ls@.len() as int) == Seq::<Seq<char>>::empty());
    assert(pair_views(core@) + Seq::<(Seq<char>, Seq<char>)>::empty() == pair_views(core@));
    GitConfig { core }
}

} // verus!
