//! A profile's stored secrets, and the decisions of the commands that read
//! and change them.
use vstd::prelude::*;
use crate::input::pairs_view;

verus! {

/// The failures of the commands on profiles.
#[derive(Debug, PartialEq, Eq)]
pub enum WithError {
    /// No profile of this name is stored.
    ProfileNotFound(String),
    /// The secret (first) is not in the profile (second).
    SecretNotFound(String, String),
    /// More than one name was given where values are read from a stream.
    RequireSingleArgument,
    /// Secret definitions did not parse; the text where they stopped.
    ParseError(String),
}

/// The secrets of one profile: pairs of a name and a value, no name twice.
pub struct ProfileInfo {
    pub members: Vec<(String, String)>,
}

/// The map that a list of pairs stands for: a later pair of a name wins
/// over an earlier one.
pub open spec fn pairs_map(s: Seq<(String, String)>) -> Map<Seq<char>, Seq<char>>
    decreases s.len(),
{
    if s.len() == 0 {
        Map::empty()
    } else {
        pairs_map(s.drop_last()).insert(s.last().0@, s.last().1@)
    }
}

pub open spec fn unique_names(s: Seq<(String, String)>) -> bool {
    forall|i: int, j: int| 0 <= i < j < s.len() ==> #[trigger] s[i].0@ != #[trigger] s[j].0@
}

/// With no name twice, the map holds exactly the names of the pairs, each
/// with the value beside it.
pub proof fn lemma_pairs_map(s: Seq<(String, String)>)
    requires
        unique_names(s),
    ensures
        forall|k: Seq<char>|
            #[trigger] pairs_map(s).contains_key(k) <==> exists|i: int|
                0 <= i < s.len() && s[i].0@ == k,
        forall|i: int| 0 <= i < s.len() ==> #[trigger] pairs_map(s)[s[i].0@] == s[i].1@,
    decreases s.len(),
{
    if s.len() > 0 {
        let p = s.drop_last();
        assert(unique_names(p)) by {
            assert forall|i: int, j: int| 0 <= i < j < p.len() implies #[trigger] p[i].0@
                != #[trigger] p[j].0@ by {
                assert(p[i] == s[i] && p[j] == s[j]);
            }
        }
        lemma_pairs_map(p);
        assert(pairs_map(s) == pairs_map(p).insert(s.last().0@, s.last().1@));
        assert forall|k: Seq<char>| #[trigger]
            pairs_map(s).contains_key(k) <==> exists|i: int| 0 <= i < s.len() && s[i].0@ == k by {
            if pairs_map(s).contains_key(k) && k != s.last().0@ {
                assert(pairs_map(p).contains_key(k));
                let i = choose|i: int| 0 <= i < p.len() && p[i].0@ == k;
                assert(s[i] == p[i]);
            }
            if exists|i: int| 0 <= i < s.len() && s[i].0@ == k {
                let i = choose|i: int| 0 <= i < s.len() && s[i].0@ == k;
                if i < s.len() - 1 {
                    assert(p[i] == s[i]);
                }
            }
        }
        assert forall|i: int| 0 <= i < s.len() implies #[trigger] pairs_map(s)[s[i].0@]
            == s[i].1@ by {
            if i < s.len() - 1 {
                assert(p[i] == s[i]);
                assert(s[i].0@ != s[s.len() - 1].0@);
            }
        }
    }
}

impl ProfileInfo {
    pub open spec fn wf(&self) -> bool {
        unique_names(self.members@)
    }

    pub open spec fn view(&self) -> Map<Seq<char>, Seq<char>> {
        pairs_map(self.members@)
    }

    /// A profile with no secrets.
    pub fn new() -> (r: ProfileInfo)
        ensures
            r.wf(),
            r@ == Map::<Seq<char>, Seq<char>>::empty(),
    {
        ProfileInfo { members: Vec::new() }
    }

    fn position(&self, name: &String) -> (r: Option<usize>)
        ensures
            r matches Some(i) ==> i < self.members@.len() && self.members@[i as int].0@ == name@,
            r is None ==> forall|i: int|
                0 <= i < self.members@.len() ==> #[trigger] self.members@[i].0@ != name@,
    {
        let mut i: usize = 0;
        while i < self.members.len()
            invariant
                i <= self.members@.len(),
                forall|j: int| 0 <= j < i ==> #[trigger] self.members@[j].0@ != name@,
            decreases self.members@.len() - i,
        {
            if self.members[i].0 == *name {
                return Some(i);
            }
            i = i + 1;
        }
        None
    }

    /// Sets the secret `name` to `value`, replacing any value it had.
    pub fn insert(&mut self, name: String, value: String)
        requires
            old(self).wf(),
        ensures
            final(self).wf(),
            final(self)@ == old(self)@.insert(name@, value@),
    {
        proof {
            lemma_pairs_map(self.members@);
        }
        let ghost before = self.members@;
        match self.position(&name) {
            Some(i) => {
                let ghost k = name@;
                let ghost v = value@;
                self.members.set(i, (name, value));
                let ghost after = self.members@;
                assert(unique_names(after)) by {
                    assert forall|a: int, b: int| 0 <= a < b < after.len() implies #[trigger]
                        after[a].0@ != #[trigger] after[b].0@ by {
                        assert(before[a].0@ != before[b].0@);
                    }
                }
                proof {
                    lemma_pairs_map(after);
                    assert forall|n: Seq<char>| #[trigger]
                        pairs_map(after).contains_key(n) == pairs_map(before).insert(
                            k,
                            v,
                        ).contains_key(n) by {
                        if pairs_map(after).contains_key(n) {
                            let j = choose|j: int| 0 <= j < after.len() && after[j].0@ == n;
                            if j != i {
                                assert(before[j] == after[j]);
                            }
                        }
                        if pairs_map(before).contains_key(n) {
                            let j = choose|j: int| 0 <= j < before.len() && before[j].0@ == n;
                            if j != i {
                                assert(before[j] == after[j]);
                            }
                        }
                    }
                    assert forall|n: Seq<char>| pairs_map(after).contains_key(n) implies #[trigger]
                        pairs_map(after)[n] == pairs_map(before).insert(k, v)[n] by {
                        let j = choose|j: int| 0 <= j < after.len() && after[j].0@ == n;
                        if j != i {
                            assert(before[j] == after[j]);
                        }
                    }
                    assert(pairs_map(after) =~= pairs_map(before).insert(k, v));
                }
            },
            None => {
                let ghost k = name@;
                self.members.push((name, value));
                let ghost after = self.members@;
                assert(after.drop_last() =~= before);
                assert(unique_names(after)) by {
                    assert forall|a: int, b: int| 0 <= a < b < after.len() implies #[trigger]
                        after[a].0@ != #[trigger] after[b].0@ by {
                        if b < before.len() {
                            assert(before[a].0@ != before[b].0@);
                        } else {
                            assert(before[a].0@ != k);
                        }
                    }
                }
            },
        }
    }

    /// Removes the secret `name`, and gives back its value if it was there.
    pub fn remove(&mut self, name: &String) -> (r: Option<String>)
        requires
            old(self).wf(),
        ensures
            final(self).wf(),
            final(self)@ == old(self)@.remove(name@),
            r is Some <==> old(self)@.contains_key(name@),
            r matches Some(v) ==> v@ == old(self)@[name@],
    {
        proof {
            lemma_pairs_map(self.members@);
        }
        let ghost before = self.members@;
        match self.position(name) {
            Some(i) => {
                let (_, value) = self.members.remove(i);
                let ghost after = self.members@;
                assert(unique_names(after)) by {
                    assert forall|a: int, b: int| 0 <= a < b < after.len() implies #[trigger]
                        after[a].0@ != #[trigger] after[b].0@ by {
                        let a2 = if a < i { a } else { a + 1 };
                        let b2 = if b < i { b } else { b + 1 };
                        assert(after[a] == before[a2] && after[b] == before[b2]);
                        assert(before[a2].0@ != before[b2].0@);
                    }
                }
                proof {
                    lemma_pairs_map(after);
                    let k = name@;
                    assert forall|n: Seq<char>| #[trigger]
                        pairs_map(after).contains_key(n) == pairs_map(before).remove(
                            k,
                        ).contains_key(n) by {
                        if pairs_map(after).contains_key(n) {
                            let j = choose|j: int| 0 <= j < after.len() && after[j].0@ == n;
                            let j2 = if j < i { j } else { j + 1 };
                            assert(after[j] == before[j2]);
                            assert(before[j2].0@ != before[i as int].0@);
                        }
                        if pairs_map(before).contains_key(n) && n != k {
                            let j = choose|j: int| 0 <= j < before.len() && before[j].0@ == n;
                            assert(j != i);
                            let j2 = if j < i { j } else { j - 1 };
                            assert(after[j2] == before[j]);
                        }
                    }
                    assert forall|n: Seq<char>| pairs_map(after).contains_key(n) implies #[trigger]
                        pairs_map(after)[n] == pairs_map(before).remove(k)[n] by {
                        let j = choose|j: int| 0 <= j < after.len() && after[j].0@ == n;
                        let j2 = if j < i { j } else { j + 1 };
                        assert(after[j] == before[j2]);
                        assert(before[j2].0@ != before[i as int].0@);
                    }
                    assert(pairs_map(after) =~= pairs_map(before).remove(k));
                }
                Some(value)
            },
            None => {
                assert(pairs_map(before).remove(name@) =~= pairs_map(before));
                None
            },
        }
    }

    /// Sets each pair's secret in turn, so that a later pair of a name wins.
    pub fn extend(&mut self, pairs: &Vec<(String, String)>)
        requires
            old(self).wf(),
        ensures
            final(self).wf(),
            final(self)@ == with_pairs(old(self)@, pairs_view(pairs@)),
    {
        let ghost start = self@;
        let mut i: usize = 0;
        while i < pairs.len()
            invariant
                i <= pairs@.len(),
                self.wf(),
                self@ == with_pairs(start, pairs_view(pairs@.take(i as int))),
            decreases pairs@.len() - i,
        {
            let name = pairs[i].0.clone();
            let value = pairs[i].1.clone();
            self.insert(name, value);
            proof {
                let t = pairs_view(pairs@.take(i + 1));
                assert(t.drop_last() =~= pairs_view(pairs@.take(i as int)));
            }
            i = i + 1;
        }
        assert(pairs@.take(i as int) =~= pairs@);
    }
}

/// The map `m` with each pair of `s` set in turn.
pub open spec fn with_pairs(m: Map<Seq<char>, Seq<char>>, s: Seq<(Seq<char>, Seq<char>)>) -> Map<
    Seq<char>,
    Seq<char>,
>
    decreases s.len(),
{
    if s.len() == 0 {
        m
    } else {
        with_pairs(m, s.drop_last()).insert(s.last().0, s.last().1)
    }
}

/// Removing `names` from `m` one after another: the map that is left, and
/// the first name that was not there when its turn came, if any.
pub open spec fn unset_steps(m: Map<Seq<char>, Seq<char>>, names: Seq<Seq<char>>) -> (Map<
    Seq<char>,
    Seq<char>,
>, Option<Seq<char>>)
    decreases names.len(),
{
    if names.len() == 0 {
        (m, None)
    } else if m.contains_key(names[0]) {
        unset_steps(m.remove(names[0]), names.subrange(1, names.len() as int))
    } else {
        (m, Some(names[0]))
    }
}

pub open spec fn names_view(names: Seq<String>) -> Seq<Seq<char>> {
    names.map_values(|n: String| n@)
}

/// Removes the secrets `names` from the profile `profile`, in order; stops
/// at the first name that is not (or no longer) there.
pub fn run_unset(info: &mut ProfileInfo, profile: &str, names: &Vec<String>) -> (r: Result<
    (),
    WithError,
>)
    requires
        old(info).wf(),
    ensures
        final(info).wf(),
        final(info)@ == unset_steps(old(info)@, names_view(names@)).0,
        r is Ok <==> unset_steps(old(info)@, names_view(names@)).1 is None,
        r matches Err(e) ==> (e matches WithError::SecretNotFound(n, p) && unset_steps(
            old(info)@,
            names_view(names@),
        ).1 == Some(n@) && p@ == profile@),
{
    let ghost start = info@;
    let mut i: usize = 0;
    assert(names_view(names@).subrange(0, names@.len() as int) =~= names_view(names@));
    while i < names.len()
        invariant
            i <= names@.len(),
            info.wf(),
            start == old(info)@,
            unset_steps(start, names_view(names@)) == unset_steps(
                info@,
                names_view(names@).subrange(i as int, names@.len() as int),
            ),
        decreases names@.len() - i,
    {
        let ghost rest = names_view(names@).subrange(i as int, names@.len() as int);
        assert(rest.subrange(1, rest.len() as int) =~= names_view(names@).subrange(
            i + 1,
            names@.len() as int,
        ));
        assert(rest[0] == names@[i as int]@);
        let ghost before = info@;
        if info.remove(&names[i]).is_none() {
            assert(before.remove(names@[i as int]@) =~= before);
            assert(rest.len() > 0);
            assert(unset_steps(before, rest) == (before, Some(rest[0])));
            return Err(WithError::SecretNotFound(names[i].clone(), profile.to_owned()));
        }
        i = i + 1;
    }
    assert(names_view(names@).subrange(i as int, names@.len() as int) =~= Seq::empty());
    Ok(())
}

/// What a profile that is not stored reads as: an empty profile where one
/// may be created, and a failure otherwise.
pub fn profile_when_missing(profile: &str, autocreate: bool) -> (r: Result<ProfileInfo, WithError>)
    ensures
        autocreate ==> (r matches Ok(info) && info.wf() && info@ == Map::<
            Seq<char>,
            Seq<char>,
        >::empty()),
        !autocreate ==> (r matches Err(WithError::ProfileNotFound(p)) && p@ == profile@),
{
    if autocreate {
        Ok(ProfileInfo::new())
    } else {
        Err(WithError::ProfileNotFound(profile.to_owned()))
    }
}

/// Where the values of secrets being set come from.
#[derive(Debug, Clone, Copy, PartialEq, Eq)]
pub enum SetSource {
    /// Asked for at the terminal, one for each name.
    Prompt,
    /// Secret definitions read from the input stream.
    Definitions,
    /// The whole input stream is the value of the one name given.
    WholeInput,
}

/// Picks where values come from: the terminal when there is one; otherwise
/// definitions when no name is given, the whole input for one name, and a
/// failure for more.
pub fn set_source(is_terminal: bool, n_names: usize) -> (r: Result<SetSource, WithError>)
    ensures
        is_terminal ==> r == Ok::<SetSource, WithError>(SetSource::Prompt),
        !is_terminal && n_names == 0 ==> r == Ok::<SetSource, WithError>(SetSource::Definitions),
        !is_terminal && n_names == 1 ==> r == Ok::<SetSource, WithError>(SetSource::WholeInput),
        !is_terminal && n_names > 1 ==> r == Err::<SetSource, WithError>(
            WithError::RequireSingleArgument,
        ),
{
    if is_terminal {
        Ok(SetSource::Prompt)
    } else if n_names == 0 {
        Ok(SetSource::Definitions)
    } else if n_names == 1 {
        Ok(SetSource::WholeInput)
    } else {
        Err(WithError::RequireSingleArgument)
    }
}

} // verus!
