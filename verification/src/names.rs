//! Names built by rules: every letter of a name says which letters may
//! follow it.

use crate::text::{
    chars_of, cut_at_gap, cut_at_text, lines, lines_of, pieces_view, split, split_at_each,
    split_at_gap, split_once_text, trim, trimmed,
};
use std::collections::HashMap;
use vstd::prelude::*;

verus! {

broadcast use vstd::std_specs::hash::group_hash_axioms;

/// The shortest name that counts.
pub const SHORTEST: usize = 7;

/// The longest name that is built.
pub const LONGEST: usize = 11;

/// For the code of a letter, the letters that may follow it.
pub struct Rules {
    pub rules: HashMap<u32, Vec<char>>,
}

/// The names of a list, as sequences.
pub open spec fn names_view(names: Seq<Vec<char>>) -> Seq<Seq<char>> {
    Seq::new(names.len(), |k: int| names[k]@)
}

impl Rules {
    /// The letter `b` may follow the letter `a`.
    pub open spec fn allowed(&self, a: char, b: char) -> bool {
        self.rules@.contains_key(a as u32) && self.rules@[a as u32]@.contains(b)
    }

    /// Every letter of the name but the first may follow the one before it.
    pub open spec fn follows(&self, name: Seq<char>) -> bool {
        forall|i: int| 0 <= i < name.len() - 1 ==> self.allowed(#[trigger] name[i], name[i + 1])
    }

    /// The names that are one letter longer than `name` and go on as the
    /// rules for its last letter say, in the order of the rule.
    pub open spec fn extensions(&self, name: Seq<char>) -> Seq<Seq<char>> {
        if name.len() > 0 && self.rules@.contains_key(name.last() as u32) {
            let posts = self.rules@[name.last() as u32]@;
            Seq::new(posts.len(), |k: int| name.push(posts[k]))
        } else {
            Seq::empty()
        }
    }

    /// The extensions of all names of a list, in the order of the list.
    pub open spec fn grown(&self, names: Seq<Seq<char>>) -> Seq<Seq<char>>
        decreases names.len(),
    {
        if names.len() == 0 {
            Seq::empty()
        } else {
            self.grown(names.drop_last()) + self.extensions(names.last())
        }
    }

    /// The names that are `extra` letters longer than `prefix`.
    pub open spec fn level(&self, prefix: Seq<char>, extra: nat) -> Seq<Seq<char>>
        decreases extra,
    {
        if extra == 0 {
            seq![prefix]
        } else {
            self.grown(self.level(prefix, (extra - 1) as nat))
        }
    }

    /// The names of at least `SHORTEST` letters among those that are up to
    /// `extra` letters longer than `prefix`, shorter names first.
    pub open spec fn harvest(&self, prefix: Seq<char>, extra: nat) -> Seq<Seq<char>>
        decreases extra,
    {
        (if extra == 0 {
            Seq::empty()
        } else {
            self.harvest(prefix, (extra - 1) as nat)
        }) + (if prefix.len() + extra >= SHORTEST {
            self.level(prefix, extra)
        } else {
            Seq::empty()
        })
    }

    /// How many letters are added to `prefix` at most.
    pub open spec fn room(prefix: Seq<char>) -> nat {
        if prefix.len() < LONGEST {
            (LONGEST - prefix.len()) as nat
        } else {
            0
        }
    }

    /// The names that begin with `prefix`, follow the rules and have
    /// between `SHORTEST` and `LONGEST` letters, or as many as a longer
    /// prefix has; none when the prefix itself breaks a rule.
    pub open spec fn valid_names(&self, prefix: Seq<char>) -> Seq<Seq<char>> {
        if self.follows(prefix) {
            self.harvest(prefix, Rules::room(prefix))
        } else {
            Seq::empty()
        }
    }

    /// Whether every letter of the name may follow the one before it.
    pub fn validate_chars(&self, name: &Vec<char>) -> (ok: bool)
        ensures
            ok == self.follows(name@),
    {
        if name.len() < 2 {
            return true;
        }
        let mut i: usize = 0;
        while i < name.len() - 1
            invariant
                0 <= i <= name.len() - 1,
                forall|j: int| 0 <= j < i ==> self.allowed(#[trigger] name@[j], name@[j + 1]),
            decreases name.len() - 1 - i,
        {
            let c1 = name[i];
            let c2 = name[i + 1];
            match self.rules.get(&(c1 as u32)) {
                Some(posts) => {
                    let mut k: usize = 0;
                    let mut found = false;
                    while k < posts.len() && !found
                        invariant
                            0 <= k <= posts.len(),
                            found ==> posts@.contains(c2),
                            !found ==> forall|j: int| 0 <= j < k ==> posts@[j] != c2,
                        decreases posts.len() - k + (if found {
                            0int
                        } else {
                            1int
                        }),
                    {
                        if posts[k] == c2 {
                            found = true;
                        } else {
                            k += 1;
                        }
                    }
                    if !found {
                        assert(!self.allowed(name@[i as int], name@[i + 1]));
                        return false;
                    }
                },
                None => {
                    assert(!self.allowed(name@[i as int], name@[i + 1]));
                    return false;
                },
            }
            i += 1;
        }
        true
    }

    /// Whether every letter of the name may follow the one before it.
    pub fn validate(&self, name: &str) -> (ok: bool)
        ensures
            ok == self.follows(name@),
    {
        let chars = chars_of(name);
        self.validate_chars(&chars)
    }

    /// The extensions of all names of a list.
    fn grow(&self, names: &Vec<Vec<char>>) -> (out: Vec<Vec<char>>)
        ensures
            names_view(out@) == self.grown(names_view(names@)),
    {
        let mut out: Vec<Vec<char>> = Vec::new();
        let ghost views = names_view(names@);
        let mut i: usize = 0;
        assert(names_view(out@) =~= self.grown(views.take(0)));
        while i < names.len()
            invariant
                0 <= i <= names.len(),
                views == names_view(names@),
                names_view(out@) == self.grown(views.take(i as int)),
            decreases names.len() - i,
        {
            let name = &names[i];
            let ghost before = names_view(out@);
            proof {
                assert(views.take(i + 1).drop_last() =~= views.take(i as int));
                assert(views.take(i + 1).last() == name@);
            }
            if name.len() > 0 {
                match self.rules.get(&(name[name.len() - 1] as u32)) {
                    Some(posts) => {
                        let mut k: usize = 0;
                        while k < posts.len()
                            invariant
                                0 <= k <= posts.len(),
                                names_view(out@) == before + self.extensions(name@).take(k as int),
                                self.extensions(name@).len() == posts@.len(),
                                forall|j: int|
                                    0 <= j < posts@.len() ==> self.extensions(name@)[j]
                                        == name@.push(posts@[j]),
                            decreases posts.len() - k,
                        {
                            let mut longer: Vec<char> = Vec::new();
                            let mut j: usize = 0;
                            while j < name.len()
                                invariant
                                    0 <= j <= name.len(),
                                    longer@ == name@.take(j as int),
                                decreases name.len() - j,
                            {
                                longer.push(name[j]);
                                assert(longer@ =~= name@.take(j + 1));
                                j += 1;
                            }
                            assert(name@.take(j as int) =~= name@);
                            longer.push(posts[k]);
                            let ghost so_far = names_view(out@);
                            let ghost added = longer@;
                            assert(added == self.extensions(name@)[k as int]);
                            out.push(longer);
                            assert(names_view(out@) =~= so_far.push(added));
                            assert(self.extensions(name@).take(k + 1) =~= self.extensions(
                                name@,
                            ).take(k as int).push(added));
                            assert(names_view(out@) =~= before + self.extensions(name@).take(
                                k + 1,
                            ));
                            k += 1;
                        }
                        assert(self.extensions(name@).take(k as int) =~= self.extensions(name@));
                    },
                    None => {
                        assert(names_view(out@) =~= before + self.extensions(name@));
                    },
                }
            } else {
                assert(names_view(out@) =~= before + self.extensions(name@));
            }
            i += 1;
        }
        assert(views.take(i as int) =~= views);
        out
    }

    /// The names that begin with `prefix`, follow the rules and have
    /// between seven and eleven letters.
    pub fn get_valid_names(&self, prefix: &str) -> (names: Vec<Vec<char>>)
        ensures
            names_view(names@) == self.valid_names(prefix@),
    {
        let start = chars_of(prefix);
        let mut names: Vec<Vec<char>> = Vec::new();
        if !self.validate_chars(&start) {
            assert(names_view(names@) =~= Seq::<Seq<char>>::empty());
            return names;
        }
        let len = start.len();
        let room: usize = if len < LONGEST {
            LONGEST - len
        } else {
            0
        };
        let mut level: Vec<Vec<char>> = Vec::new();
        level.push(start);
        assert(names_view(level@) =~= self.level(prefix@, 0));
        if len >= SHORTEST {
            append_names(&mut names, &level);
        }
        assert(names_view(names@) =~= self.harvest(prefix@, 0));
        let mut extra: usize = 0;
        while extra < room
            invariant
                0 <= extra <= room <= LONGEST,
                room == 0 || len + room == LONGEST,
                len == prefix@.len(),
                names_view(level@) == self.level(prefix@, extra as nat),
                names_view(names@) == self.harvest(prefix@, extra as nat),
            decreases room - extra,
        {
            level = self.grow(&level);
            extra += 1;
            if len + extra >= SHORTEST {
                append_names(&mut names, &level);
            } else {
                assert(names_view(names@) =~= names_view(names@) + Seq::<Seq<char>>::empty());
            }
        }
        names
    }
}

/// Puts copies of the names of `more` behind those of `names`.
fn append_names(names: &mut Vec<Vec<char>>, more: &Vec<Vec<char>>)
    ensures
        names_view(final(names)@) == names_view(old(names)@) + names_view(more@),
{
    let ghost start = names_view(names@);
    let mut i: usize = 0;
    assert(names_view(names@) =~= start + names_view(more@).take(0));
    while i < more.len()
        invariant
            0 <= i <= more.len(),
            names_view(names@) == start + names_view(more@).take(i as int),
        decreases more.len() - i,
    {
        let name = &more[i];
        let mut copy: Vec<char> = Vec::new();
        let mut j: usize = 0;
        while j < name.len()
            invariant
                0 <= j <= name.len(),
                copy@ == name@.take(j as int),
            decreases name.len() - j,
        {
            copy.push(name[j]);
            assert(copy@ =~= name@.take(j + 1));
            j += 1;
        }
        assert(name@.take(j as int) =~= name@);
        let ghost so_far = names_view(names@);
        let ghost added = copy@;
        assert(added == names_view(more@)[i as int]);
        names.push(copy);
        assert(names_view(names@) =~= so_far.push(added));
        assert(names_view(more@).take(i + 1) =~= names_view(more@).take(i as int).push(added));
        assert(names_view(names@) =~= start + names_view(more@).take(i + 1));
        i += 1;
    }
    assert(names_view(more@).take(i as int) =~= names_view(more@));
}

/// The first letters of the pieces, if no piece is empty.
pub open spec fn initials(pieces: Seq<Seq<char>>) -> Option<Seq<char>> {
    if forall|k: int| 0 <= k < pieces.len() ==> (#[trigger] pieces[k]).len() > 0 {
        Some(Seq::new(pieces.len(), |k: int| pieces[k][0]))
    } else {
        None
    }
}

/// The rule that a line such as `A > b,c` spells: the letter, and the
/// letters that may follow it. Of every name only the first letter counts.
pub open spec fn rule_of(line: Seq<char>) -> Option<(char, Seq<char>)> {
    match split_once_text(line, " > "@) {
        Some((pre, posts)) => if pre.len() > 0 {
            match initials(split(posts, ',')) {
                Some(letters) => Some((pre[0], letters)),
                None => None,
            }
        } else {
            None
        },
        None => None,
    }
}

/// The rules that the first `upto` lines spell, a later rule for a
/// letter taking the place of an earlier one.
pub open spec fn rules_of(ls: Seq<Seq<char>>, upto: nat) -> Option<Map<u32, Seq<char>>>
    decreases upto,
{
    if upto == 0 {
        Some(Map::empty())
    } else {
        match (rules_of(ls, (upto - 1) as nat), rule_of(ls[upto - 1])) {
            (Some(before), Some((letter, posts))) => Some(before.insert(letter as u32, posts)),
            _ => None,
        }
    }
}

/// Lines that spell no rules spell none when more lines are read.
pub proof fn lemma_rules_stay_none(ls: Seq<Seq<char>>, from: nat, upto: nat)
    requires
        from <= upto,
        rules_of(ls, from).is_none(),
    ensures
        rules_of(ls, upto).is_none(),
    decreases upto,
{
    if from < upto {
        lemma_rules_stay_none(ls, from, (upto - 1) as nat);
    }
}

impl Rules {
    /// What the rules hold, with the letters as sequences.
    pub open spec fn as_map(&self) -> Map<u32, Seq<char>> {
        Map::new(|k: u32| self.rules@.contains_key(k), |k: u32| self.rules@[k]@)
    }
}

/// Reads one rule.
pub fn parse_rule(line: &Vec<char>) -> (rule: Option<(char, Vec<char>)>)
    ensures
        match rule {
            Some((letter, posts)) => rule_of(line@) == Some((letter, posts@)),
            None => rule_of(line@).is_none(),
        },
{
    let (pre, posts) = match cut_at_text(line, " > ") {
        Some(parts) => parts,
        None => {
            return None;
        },
    };
    if pre.len() == 0 {
        return None;
    }
    let pieces = split_at_each(&posts, ',');
    let ghost views = pieces_view(pieces@);
    let mut letters: Vec<char> = Vec::new();
    let mut k: usize = 0;
    while k < pieces.len()
        invariant
            0 <= k <= pieces.len(),
            views == pieces_view(pieces@),
            views == split(posts@, ','),
            split_once_text(line@, " > "@) == Some((pre@, posts@)),
            pre@.len() > 0,
            letters@.len() == k,
            forall|j: int| 0 <= j < k ==> (#[trigger] views[j]).len() > 0 && letters@[j] == views[j][0],
        decreases pieces.len() - k,
    {
        if pieces[k].len() == 0 {
            assert(views[k as int].len() == 0);
            return None;
        }
        letters.push(pieces[k][0]);
        k += 1;
    }
    assert(letters@ =~= initials(views).unwrap());
    Some((pre[0], letters))
}

/// Reads names and rules from a text: names separated by commas, an
/// empty line, and a rule on every line after it. The text has to hold
/// the empty line and nothing but rules after it; `read` tells whether
/// it does.
pub fn parse(s: &str) -> (both: (Vec<Vec<char>>, Rules))
    requires
        split_at_gap(trim(s@)) is Some,
        rules_of(
            lines(split_at_gap(trim(s@)).unwrap().1),
            lines(split_at_gap(trim(s@)).unwrap().1).len(),
        ) is Some,
    ensures
        pieces_view(both.0@) == split(split_at_gap(trim(s@)).unwrap().0, ','),
        rules_of(
            lines(split_at_gap(trim(s@)).unwrap().1),
            lines(split_at_gap(trim(s@)).unwrap().1).len(),
        ) == Some(both.1.as_map()),
{
    read(s).unwrap()
}

/// Reads names and rules from a text: names separated by commas, an
/// empty line, and a rule on every line after it.
pub fn read(s: &str) -> (read: Option<(Vec<Vec<char>>, Rules)>)
    ensures
        match read {
            Some((names, rules)) => match split_at_gap(trim(s@)) {
                Some((head, tail)) => pieces_view(names@) == split(head, ',') && rules_of(
                    lines(tail),
                    lines(tail).len(),
                ) == Some(rules.as_map()),
                None => false,
            },
            None => match split_at_gap(trim(s@)) {
                Some((head, tail)) => rules_of(lines(tail), lines(tail).len()).is_none(),
                None => true,
            },
        },
{
    let chars = chars_of(s);
    let body = trimmed(&chars);
    let (head, tail) = match cut_at_gap(&body) {
        Some(parts) => parts,
        None => {
            return None;
        },
    };
    let names = split_at_each(&head, ',');
    let ls = lines_of(&tail);
    let ghost views = pieces_view(ls@);
    let mut rules = Rules { rules: HashMap::new() };
    assert(rules.as_map() =~= Map::<u32, Seq<char>>::empty());
    let mut k: usize = 0;
    while k < ls.len()
        invariant
            0 <= k <= ls.len(),
            views == pieces_view(ls@),
            views == lines(tail@),
            split_at_gap(trim(s@)) == Some((head@, tail@)),
            pieces_view(names@) == split(head@, ','),
            rules_of(views, k as nat) == Some(rules.as_map()),
        decreases ls.len() - k,
    {
        match parse_rule(&ls[k]) {
            Some((letter, posts)) => {
                let ghost before = rules.as_map();
                let ghost added = posts@;
                rules.rules.insert(letter as u32, posts);
                assert(rules.as_map() =~= before.insert(letter as u32, added));
            },
            None => {
                proof {
                    assert(rules_of(views, (k + 1) as nat).is_none());
                    lemma_rules_stay_none(views, (k + 1) as nat, views.len());
                }
                return None;
            },
        }
        k += 1;
    }
    Some((names, rules))
}

} // verus!
