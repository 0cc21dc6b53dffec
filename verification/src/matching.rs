//! Pairing blocks between two states of a map.
//!
//! The editor rewrites a map wholesale on save: block order gets shuffled and
//! `id` keyvalues are not guaranteed to survive. Matching therefore runs as a
//! cascade, most certain first, each stage seeing only what the previous ones
//! could not place:
//!
//! 1. **Marker**: a key the tool itself wrote.
//! 2. **Id**: the `id` keyvalue, which the editor may renumber.
//! 3. **Signature**: the discriminating keyvalues taken together.
//! 4. **Similarity**: the most alike blocks by their keyvalues.
//!
//! A token stage pairs two blocks only when their token is unique on both
//! sides among the blocks still free; an ambiguous token is left to later
//! stages rather than guessed. Blocks of different kinds never pair.
//!
//! The similarity scores are computed by the caller; this module pairs the
//! candidates it is handed, best first.

use indexmap::IndexMap;
use vstd::prelude::*;

use crate::kv::{entries_of, kv_clone, kv_get, lookup, Entries};
use crate::text::{joined, owned};

verus! {

/// The stage that produced a pair, in increasing order of confidence.
#[derive(Debug, Clone, Copy, PartialEq, Eq, Structural)]
pub enum Confidence {
    Similarity,
    Signature,
    Id,
    Marker,
}

impl Confidence {
    /// The rank of a stage: higher is more certain.
    pub open spec fn level(self) -> nat {
        match self {
            Confidence::Similarity => 0,
            Confidence::Signature => 1,
            Confidence::Id => 2,
            Confidence::Marker => 3,
        }
    }

    /// The rank of a stage.
    pub fn rank(&self) -> (r: u8)
        ensures
            r as nat == self.level(),
    {
        match self {
            Confidence::Similarity => 0,
            Confidence::Signature => 1,
            Confidence::Id => 2,
            Confidence::Marker => 3,
        }
    }
}

/// A block to be matched: its kind and its keyvalues.
#[derive(Debug)]
pub struct Block {
    pub name: String,
    pub key_values: IndexMap<String, String>,
}

/// One matched pair of blocks, as positions in the two lists handed to the
/// matcher. `score` is the similarity score as written with two decimals,
/// `1.00` for the exact stages.
#[derive(Debug, Clone)]
pub struct Pair {
    pub old: usize,
    pub new: usize,
    pub confidence: Confidence,
    pub score: String,
}

/// The outcome of matching.
#[derive(Debug)]
pub struct Matching {
    /// The pairs, in ascending order of `old`.
    pub pairs: Vec<Pair>,
    /// Positions with no counterpart: removed, if `old` is the earlier state.
    pub only_old: Vec<usize>,
    /// Positions with no counterpart: added.
    pub only_new: Vec<usize>,
}

/// The settings of the token stages.
#[derive(Debug)]
pub struct MatchOptions {
    /// The key holding an entity marker token; `None` skips that stage.
    pub marker_key: Option<String>,
    /// The keys whose values together make a block's signature.
    pub signature_keys: Vec<String>,
    /// The keys the similarity stage leaves out.
    pub ignore_keys: Vec<String>,
}

/// The keyvalues that carry most of a block's identity.
pub open spec fn default_signature_keys() -> Seq<Seq<char>> {
    seq![
        seq!['c', 'l', 'a', 's', 's', 'n', 'a', 'm', 'e'],
        seq!['t', 'a', 'r', 'g', 'e', 't', 'n', 'a', 'm', 'e'],
        seq!['o', 'r', 'i', 'g', 'i', 'n'],
    ]
}

/// The characters of `id`.
pub open spec fn id_key() -> Seq<char> {
    seq!['i', 'd']
}

impl MatchOptions {
    /// No marker stage; the signature made of `classname`, `targetname` and
    /// `origin`; `id` left out of similarity.
    pub fn standard() -> (r: MatchOptions)
        ensures
            r.marker_key is None,
            r.signature_keys@.map_values(|k: String| k@) == default_signature_keys(),
            r.ignore_keys@.map_values(|k: String| k@) == seq![id_key()],
    {
        let mut keys: Vec<String> = Vec::new();
        keys.push(owned("classname"));
        keys.push(owned("targetname"));
        keys.push(owned("origin"));
        let mut ignore: Vec<String> = Vec::new();
        ignore.push(owned("id"));
        proof {
            reveal_strlit("classname");
            reveal_strlit("targetname");
            reveal_strlit("origin");
            reveal_strlit("id");
        }
        assert("classname"@ =~= seq!['c', 'l', 'a', 's', 's', 'n', 'a', 'm', 'e']);
        assert("targetname"@ =~= seq!['t', 'a', 'r', 'g', 'e', 't', 'n', 'a', 'm', 'e']);
        assert("origin"@ =~= seq!['o', 'r', 'i', 'g', 'i', 'n']);
        assert("id"@ =~= seq!['i', 'd']);
        assert(keys@.map_values(|k: String| k@) =~= default_signature_keys());
        assert(ignore@.map_values(|k: String| k@) =~= seq![id_key()]);
        MatchOptions { marker_key: None, signature_keys: keys, ignore_keys: ignore }
    }
}

// ---------------------------------------------------------------------------
// Tokens.
// ---------------------------------------------------------------------------

/// The value of `key` in a block.
pub fn kv(block: &Block, key: &str) -> (r: Option<String>)
    ensures
        r is None <==> lookup(entries_of(block.key_values), key@) is None,
        r matches Some(v) ==> lookup(entries_of(block.key_values), key@) == Some(v@),
{
    match kv_get(&block.key_values, key) {
        Some(v) => Some(v.clone()),
        None => None,
    }
}

/// The `key=value` parts for the first `n` of `keys` that the block has.
pub open spec fn signature_parts(e: Entries, keys: Seq<Seq<char>>, n: int) -> Seq<Seq<char>>
    decreases n,
{
    if n <= 0 {
        Seq::empty()
    } else {
        let prev = signature_parts(e, keys, n - 1);
        match lookup(e, keys[n - 1]) {
            Some(v) => prev.push(keys[n - 1] + seq!['='] + v),
            None => prev,
        }
    }
}

/// A block's signature: `key=value` for each signature key it has, joined by
/// U+0001; none where it has none of them.
pub open spec fn signature_of(e: Entries, keys: Seq<Seq<char>>) -> Option<Seq<char>> {
    let parts = signature_parts(e, keys, keys.len() as int);
    if parts.len() == 0 {
        None
    } else {
        Some(joined(parts, seq!['\u{1}']))
    }
}

/// The signature of a block.
pub fn signature(block: &Block, keys: &Vec<String>) -> (r: Option<String>)
    ensures
        r is None <==> signature_of(entries_of(block.key_values), keys@.map_values(|k: String| k@)) is None,
        r matches Some(v) ==> signature_of(
            entries_of(block.key_values),
            keys@.map_values(|k: String| k@),
        ) == Some(v@),
{
    let ghost ks = keys@.map_values(|k: String| k@);
    let ghost e = entries_of(block.key_values);
    let mut parts: Vec<String> = Vec::new();
    let mut i: usize = 0;
    while i < keys.len()
        invariant
            ks == keys@.map_values(|k: String| k@),
            e == entries_of(block.key_values),
            i <= keys@.len(),
            parts@.map_values(|p: String| p@) == signature_parts(e, ks, i as int),
        decreases keys.len() - i,
    {
        assert(ks[i as int] == keys@[i as int]@);
        match kv_get(&block.key_values, keys[i].as_str()) {
            Some(v) => {
                let mut part = keys[i].clone();
                part.append("=");
                part.append(v.as_str());
                proof {
                    reveal_strlit("=");
                    assert("="@ =~= seq!['=']);
                }
                let ghost prev = parts@.map_values(|p: String| p@);
                parts.push(part);
                assert(parts@.map_values(|p: String| p@) =~= prev.push(
                    ks[i as int] + seq!['='] + v@,
                ));
            },
            None => {},
        }
        i = i + 1;
    }
    if parts.len() == 0 {
        return None;
    }
    let r = crate::text::join(&parts, parts.len(), "\u{1}");
    proof {
        reveal_strlit("\u{1}");
        assert("\u{1}"@ =~= seq!['\u{1}']);
        assert(parts@.map_values(|p: String| p@).subrange(0, parts@.len() as int) =~= parts@.map_values(
            |p: String| p@,
        ));
    }
    Some(r)
}

// ---------------------------------------------------------------------------
// The state of a matching in progress.
// ---------------------------------------------------------------------------

/// Which blocks are paired so far: for each old block, its partner, the stage
/// and the score; for each new block, whether it is taken.
#[derive(Debug)]
pub struct MatchState {
    pub partner: Vec<Option<(usize, Confidence, String)>>,
    pub new_taken: Vec<bool>,
}

/// The view of a [`MatchState`]: partners without their scores.
pub struct StateView {
    pub partner: Seq<Option<(int, Confidence)>>,
    pub taken: Seq<bool>,
}

impl View for MatchState {
    type V = StateView;

    open spec fn view(&self) -> StateView {
        StateView {
            partner: self.partner@.map_values(
                |p: Option<(usize, Confidence, String)>|
                    match p {
                        Some(x) => Some((x.0 as int, x.1)),
                        None => None,
                    },
            ),
            taken: self.new_taken@,
        }
    }
}

/// The new block a link points at.
pub open spec fn link_target(p: Option<(int, Confidence)>) -> int {
    match p {
        Some(x) => x.0,
        None => -1,
    }
}

/// The score text of a link.
pub open spec fn link_score(p: Option<(usize, Confidence, String)>) -> Seq<char> {
    match p {
        Some(x) => x.2@,
        None => Seq::empty(),
    }
}

/// A consistent state: partners in range, taken exactly by their partner, no
/// new block taken twice.
pub open spec fn state_wf(s: StateView) -> bool {
    &&& forall|i: int|
        0 <= i < s.partner.len() ==> (#[trigger] s.partner[i] matches Some(p) ==> 0 <= p.0
            < s.taken.len() && s.taken[p.0])
    &&& forall|i: int, k: int|
        0 <= i < s.partner.len() && 0 <= k < s.partner.len() && i != k && s.partner[i] is Some
            && s.partner[k] is Some ==> link_target(#[trigger] s.partner[i]) != link_target(
        #[trigger] s.partner[k],
    )
    &&& forall|j: int|
        0 <= j < s.taken.len() && #[trigger] s.taken[j] ==> exists|i: int|
            0 <= i < s.partner.len() && link_target(s.partner[i]) == j
}

/// The names and tokens a stage looks at.
pub struct StageInput {
    pub old_names: Seq<Seq<char>>,
    pub new_names: Seq<Seq<char>>,
    pub old_tokens: Seq<Option<Seq<char>>>,
    pub new_tokens: Seq<Option<Seq<char>>>,
}

/// Old block `i` and new block `j` are both free, of one kind, carry the same
/// token, and no other free block of that kind on either side carries it.
pub open spec fn sole_pair(s: StateView, inp: StageInput, i: int, j: int) -> bool {
    &&& 0 <= i < s.partner.len()
    &&& 0 <= j < s.taken.len()
    &&& s.partner[i] is None
    &&& !s.taken[j]
    &&& inp.old_names[i] == inp.new_names[j]
    &&& inp.old_tokens[i] is Some
    &&& inp.old_tokens[i] == inp.new_tokens[j]
    &&& forall|i2: int|
        0 <= i2 < s.partner.len() && s.partner[i2] is None && inp.old_names[i2] == inp.old_names[i]
            && #[trigger] inp.old_tokens[i2] == inp.old_tokens[i] ==> i2 == i
    &&& forall|j2: int|
        0 <= j2 < s.taken.len() && !s.taken[j2] && inp.new_names[j2] == inp.new_names[j]
            && #[trigger] inp.new_tokens[j2] == inp.new_tokens[j] ==> j2 == j
}

/// The state after a token stage: every sole pair is taken at once.
pub open spec fn after_stage(s: StateView, inp: StageInput, conf: Confidence) -> StateView {
    StateView {
        partner: Seq::new(
            s.partner.len(),
            |i: int|
                if exists|j: int| sole_pair(s, inp, i, j) {
                    Some((choose|j: int| sole_pair(s, inp, i, j), conf))
                } else {
                    s.partner[i]
                },
        ),
        taken: Seq::new(
            s.taken.len(),
            |j: int| s.taken[j] || exists|i: int| sole_pair(s, inp, i, j),
        ),
    }
}

/// The views of a list of names.
pub open spec fn names_view(v: Seq<String>) -> Seq<Seq<char>> {
    v.map_values(|x: String| x@)
}

/// The views of a list of tokens.
pub open spec fn tokens_view(v: Seq<Option<String>>) -> Seq<Option<Seq<char>>> {
    v.map_values(
        |x: Option<String>|
            match x {
                Some(t) => Some(t@),
                None => None,
            },
    )
}

fn same_token(a: &Option<String>, b: &Option<String>) -> (r: bool)
    ensures
        r == (match *a {
            Some(t) => Some(t@),
            None => None::<Seq<char>>,
        } == match *b {
            Some(t) => Some(t@),
            None => None::<Seq<char>>,
        }),
{
    match (a, b) {
        (Some(x), Some(y)) => *x == *y,
        (None, None) => true,
        _ => false,
    }
}

/// The characters of `1.00`.
pub open spec fn exact_score() -> Seq<char> {
    seq!['1', '.', '0', '0']
}

/// Runs one token stage.
pub fn run_stage(
    state: &mut MatchState,
    old_names: &Vec<String>,
    new_names: &Vec<String>,
    old_tokens: &Vec<Option<String>>,
    new_tokens: &Vec<Option<String>>,
    conf: Confidence,
)
    requires
        state_wf(old(state)@),
        old_names@.len() == old(state)@.partner.len(),
        old_tokens@.len() == old(state)@.partner.len(),
        new_names@.len() == old(state)@.taken.len(),
        new_tokens@.len() == old(state)@.taken.len(),
    ensures
        final(state)@ == after_stage(
            old(state)@,
            StageInput {
                old_names: names_view(old_names@),
                new_names: names_view(new_names@),
                old_tokens: tokens_view(old_tokens@),
                new_tokens: tokens_view(new_tokens@),
            },
            conf,
        ),
        state_wf(final(state)@),
        forall|i: int|
            0 <= i < final(state)@.partner.len() && old(state)@.partner[i] is None
                && #[trigger] final(state)@.partner[i] is Some ==> link_score(final(state).partner@[i])
                == exact_score(),
        forall|i: int|
            0 <= i < final(state)@.partner.len() && old(state)@.partner[i] is Some ==> #[trigger] final(state).partner@[i] == old(state).partner@[i],
{
    let ghost s = state@;
    let ghost inp = StageInput {
        old_names: names_view(old_names@),
        new_names: names_view(new_names@),
        old_tokens: tokens_view(old_tokens@),
        new_tokens: tokens_view(new_tokens@),
    };
    let no = state.partner.len();
    let nn = state.new_taken.len();
    let mut choice: Vec<Option<usize>> = Vec::new();
    let mut i: usize = 0;
    while i < no
        invariant
            s == state@,
            no == s.partner.len(),
            nn == s.taken.len(),
            old_names@.len() == no,
            old_tokens@.len() == no,
            new_names@.len() == nn,
            new_tokens@.len() == nn,
            inp == (StageInput {
                old_names: names_view(old_names@),
                new_names: names_view(new_names@),
                old_tokens: tokens_view(old_tokens@),
                new_tokens: tokens_view(new_tokens@),
            }),
            i <= no,
            choice@.len() == i,
            forall|a: int|
                0 <= a < i ==> match #[trigger] choice@[a] {
                    Some(j) => j < nn && sole_pair(s, inp, a, j as int),
                    None => forall|j: int| !sole_pair(s, inp, a, j),
                },
        decreases no - i,
    {
        assert(s.partner[i as int] == (match state.partner@[i as int] {
            Some(x) => Some((x.0 as int, x.1)),
            None => None,
        }));
        assert(inp.old_tokens[i as int] == match old_tokens@[i as int] {
            Some(t) => Some(t@),
            None => None::<Seq<char>>,
        });
        let mut pick: Option<usize> = None;
        if state.partner[i].is_none() && old_tokens[i].is_some() {
            let mut unique = true;
            let mut a: usize = 0;
            while a < no
                invariant
                    s == state@,
                    no == s.partner.len(),
                    old_names@.len() == no,
                    old_tokens@.len() == no,
                    inp.old_names == names_view(old_names@),
                    inp.old_tokens == tokens_view(old_tokens@),
                    i < no,
                    a <= no,
                    unique == forall|i2: int|
                        0 <= i2 < a && s.partner[i2] is None && inp.old_names[i2]
                            == inp.old_names[i as int] && #[trigger] inp.old_tokens[i2]
                            == inp.old_tokens[i as int] ==> i2 == i,
                decreases no - a,
            {
                assert(s.partner[a as int] is None <==> state.partner@[a as int] is None);
                assert(inp.old_names[a as int] == old_names@[a as int]@);
                assert(inp.old_names[i as int] == old_names@[i as int]@);
                assert(inp.old_tokens[a as int] == match old_tokens@[a as int] {
                    Some(t) => Some(t@),
                    None => None::<Seq<char>>,
                });
                assert(inp.old_tokens[i as int] == match old_tokens@[i as int] {
                    Some(t) => Some(t@),
                    None => None::<Seq<char>>,
                });
                if a != i && state.partner[a].is_none() && old_names[a] == old_names[i]
                    && same_token(&old_tokens[a], &old_tokens[i]) {
                    unique = false;
                }
                a = a + 1;
            }
            if unique {
                let mut found: Option<usize> = None;
                let mut many = false;
                let mut b: usize = 0;
                while b < nn
                    invariant
                        s == state@,
                        nn == s.taken.len(),
                        no == s.partner.len(),
                        new_names@.len() == nn,
                        new_tokens@.len() == nn,
                        old_names@.len() == no,
                        old_tokens@.len() == no,
                        inp.new_names == names_view(new_names@),
                        inp.new_tokens == tokens_view(new_tokens@),
                        inp.old_names == names_view(old_names@),
                        inp.old_tokens == tokens_view(old_tokens@),
                        i < no,
                        b <= nn,
                        found matches Some(j) ==> j < b && !s.taken[j as int] && inp.new_names[j as int]
                            == inp.old_names[i as int] && inp.new_tokens[j as int]
                            == inp.old_tokens[i as int],
                        found is None ==> forall|j: int|
                            0 <= j < b && !s.taken[j] && inp.new_names[j] == inp.old_names[i as int]
                                ==> #[trigger] inp.new_tokens[j] != inp.old_tokens[i as int],
                        !many ==> (found matches Some(j) ==> forall|j2: int|
                            0 <= j2 < b && !s.taken[j2] && inp.new_names[j2] == inp.old_names[i as int]
                                && #[trigger] inp.new_tokens[j2] == inp.old_tokens[i as int] ==> j2
                                == j),
                        many ==> exists|j1: int, j2: int|
                            0 <= j1 < j2 < b && !s.taken[j1] && !s.taken[j2] && inp.new_names[j1]
                                == inp.old_names[i as int] && inp.new_names[j2]
                                == inp.old_names[i as int] && inp.new_tokens[j1]
                                == inp.old_tokens[i as int] && inp.new_tokens[j2]
                                == inp.old_tokens[i as int],
                    decreases nn - b,
                {
                    assert(inp.new_names[b as int] == new_names@[b as int]@);
                    assert(inp.old_names[i as int] == old_names@[i as int]@);
                    assert(inp.new_tokens[b as int] == match new_tokens@[b as int] {
                        Some(t) => Some(t@),
                        None => None::<Seq<char>>,
                    });
                    assert(inp.old_tokens[i as int] == match old_tokens@[i as int] {
                        Some(t) => Some(t@),
                        None => None::<Seq<char>>,
                    });
                    if !state.new_taken[b] && new_names[b] == old_names[i] && same_token(
                        &new_tokens[b],
                        &old_tokens[i],
                    ) {
                        match found {
                            None => {
                                found = Some(b);
                            },
                            Some(j) => {
                                many = true;
                            },
                        }
                    }
                    b = b + 1;
                }
                if !many {
                    pick = found;
                }
                proof {
                    if many {
                        let (j1, j2) = choose|j1: int, j2: int|
                            0 <= j1 < j2 < nn && !s.taken[j1] && !s.taken[j2] && inp.new_names[j1]
                                == inp.old_names[i as int] && inp.new_names[j2]
                                == inp.old_names[i as int] && inp.new_tokens[j1]
                                == inp.old_tokens[i as int] && inp.new_tokens[j2]
                                == inp.old_tokens[i as int];
                        assert forall|j: int| !sole_pair(s, inp, i as int, j) by {
                            if sole_pair(s, inp, i as int, j) {
                                assert(inp.new_tokens[j1] == inp.new_tokens[j]);
                                assert(inp.new_tokens[j2] == inp.new_tokens[j]);
                            }
                        }
                    }
                }
            } else {
                proof {
                    assert forall|j: int| !sole_pair(s, inp, i as int, j) by {}
                }
            }
        } else {
            proof {
                assert forall|j: int| !sole_pair(s, inp, i as int, j) by {}
            }
        }
        choice.push(pick);
        i = i + 1;
    }
    // Apply every choice at once.
    let ghost mid = state@;
    let mut k: usize = 0;
    while k < no
        invariant
            no == s.partner.len(),
            nn == s.taken.len(),
            choice@.len() == no,
            state@.partner.len() == no,
            state@.taken.len() == nn,
            k <= no,
            forall|a: int|
                0 <= a < no ==> match #[trigger] choice@[a] {
                    Some(j) => j < nn && sole_pair(s, inp, a, j as int),
                    None => forall|j: int| !sole_pair(s, inp, a, j),
                },
            forall|a: int|
                0 <= a < no ==> #[trigger] state@.partner[a] == if a < k && choice@[a] is Some {
                    Some((choice@[a]->0 as int, conf))
                } else {
                    s.partner[a]
                },
            forall|a: int|
                0 <= a < no ==> if a < k && choice@[a] is Some {
                    link_score(#[trigger] state.partner@[a]) == exact_score()
                } else {
                    state.partner@[a] == old(state).partner@[a]
                },
            forall|j: int|
                0 <= j < nn ==> #[trigger] state@.taken[j] == (s.taken[j] || exists|a: int|
                    0 <= a < k && choice@[a] == Some(j as usize)),
            s == old(state)@,
        decreases no - k,
    {
        match choice[k] {
            Some(j) => {
                let ghost before = state@;
                state.partner.set(k, Some((j, conf, owned("1.00"))));
                proof {
                    reveal_strlit("1.00");
                    assert("1.00"@ =~= exact_score());
                }
                assert(state@.partner =~= before.partner.update(k as int, Some((j as int, conf))));
                state.new_taken.set(j, true);
                assert forall|jj: int| 0 <= jj < nn implies #[trigger] state@.taken[jj] == (s.taken[jj]
                    || exists|a: int| 0 <= a < k + 1 && choice@[a] == Some(jj as usize)) by {
                    if jj == j {
                        assert(choice@[k as int] == Some(jj as usize));
                    }
                    if exists|a: int| 0 <= a < k + 1 && choice@[a] == Some(jj as usize) {
                        let a = choose|a: int| 0 <= a < k + 1 && choice@[a] == Some(jj as usize);
                        if a < k {
                        } else {
                            assert(jj == j);
                        }
                    }
                }
            },
            None => {
                assert forall|jj: int| 0 <= jj < nn implies #[trigger] state@.taken[jj] == (s.taken[jj]
                    || exists|a: int| 0 <= a < k + 1 && choice@[a] == Some(jj as usize)) by {
                    if exists|a: int| 0 <= a < k + 1 && choice@[a] == Some(jj as usize) {
                        let a = choose|a: int| 0 <= a < k + 1 && choice@[a] == Some(jj as usize);
                        assert(a < k);
                    }
                }
            },
        }
        k = k + 1;
    }
    proof {
        let want = after_stage(s, inp, conf);
        assert forall|a: int| 0 <= a < no implies state@.partner[a] == want.partner[a] by {
            match choice@[a] {
                Some(j) => {
                    assert(sole_pair(s, inp, a, j as int));
                    let c = choose|c: int| sole_pair(s, inp, a, c);
                    assert(c == j as int);
                },
                None => {},
            }
        }
        assert forall|j: int| 0 <= j < nn implies state@.taken[j] == want.taken[j] by {
            if exists|a: int| 0 <= a < no && choice@[a] == Some(j as usize) {
                let a = choose|a: int| 0 <= a < no && choice@[a] == Some(j as usize);
                assert(sole_pair(s, inp, a, j));
            }
            if exists|a: int| sole_pair(s, inp, a, j) {
                let a = choose|a: int| sole_pair(s, inp, a, j);
                assert(choice@[a] is Some);
                let j2 = choice@[a]->0;
                assert(sole_pair(s, inp, a, j2 as int));
                assert(j2 as int == j);
            }
        }
        assert(state@.partner =~= want.partner);
        assert(state@.taken =~= want.taken);
        // consistency of the new state
        let f = state@;
        assert forall|a: int, b: int|
            0 <= a < no && 0 <= b < no && a != b && f.partner[a] is Some && f.partner[b] is Some
                implies link_target(#[trigger] f.partner[a]) != link_target(#[trigger] f.partner[b]) by {
            if choice@[a] is Some && choice@[b] is Some {
                let ja = choice@[a]->0 as int;
                let jb = choice@[b]->0 as int;
                if ja == jb {
                    assert(sole_pair(s, inp, a, ja) && sole_pair(s, inp, b, jb));
                    assert(inp.old_tokens[a] == inp.old_tokens[b]);
                }
            } else if choice@[a] is Some {
                let ja = choice@[a]->0 as int;
                assert(!s.taken[ja]);
                assert(s.partner[b] is Some);
            } else if choice@[b] is Some {
                let jb = choice@[b]->0 as int;
                assert(!s.taken[jb]);
                assert(s.partner[a] is Some);
            }
        }
        assert forall|j: int| 0 <= j < nn && #[trigger] f.taken[j] implies exists|a: int|
            0 <= a < f.partner.len() && link_target(f.partner[a]) == j by {
            if s.taken[j] {
                let a = choose|a: int|
                    0 <= a < s.partner.len() && link_target(s.partner[a]) == j;
                assert(f.partner[a] == s.partner[a]);
            } else {
                let a = choose|a: int| 0 <= a < k && choice@[a] == Some(j as usize);
                assert(f.partner[a] == Some((j, conf)));
            }
        }
    }
}

// ---------------------------------------------------------------------------
// The cascade.
// ---------------------------------------------------------------------------

/// The view of a [`Block`].
pub struct BlockView {
    pub name: Seq<char>,
    pub key_values: Entries,
}

impl View for Block {
    type V = BlockView;

    open spec fn view(&self) -> BlockView {
        BlockView { name: self.name@, key_values: entries_of(self.key_values) }
    }
}

/// The views of a list of blocks.
pub open spec fn blocks_view(v: Seq<Block>) -> Seq<BlockView> {
    v.map_values(|b: Block| b@)
}

/// The names of the blocks.
pub open spec fn block_names(v: Seq<BlockView>) -> Seq<Seq<char>> {
    v.map_values(|b: BlockView| b.name)
}

/// The value each block has under `key`.
pub open spec fn key_tokens(v: Seq<BlockView>, key: Seq<char>) -> Seq<Option<Seq<char>>> {
    v.map_values(|b: BlockView| lookup(b.key_values, key))
}

/// The signature of each block.
pub open spec fn signature_tokens(v: Seq<BlockView>, keys: Seq<Seq<char>>) -> Seq<Option<Seq<char>>> {
    v.map_values(|b: BlockView| signature_of(b.key_values, keys))
}

/// Nothing paired yet.
pub open spec fn fresh_state(n_old: nat, n_new: nat) -> StateView {
    StateView { partner: Seq::new(n_old, |i: int| None), taken: Seq::new(n_new, |j: int| false) }
}

/// The state after the token stages: marker (when a marker key is given), id,
/// signature.
pub open spec fn exact_stages(
    old: Seq<BlockView>,
    new: Seq<BlockView>,
    marker_key: Option<Seq<char>>,
    signature_keys: Seq<Seq<char>>,
) -> StateView {
    let s0 = fresh_state(old.len(), new.len());
    let input = |ot: Seq<Option<Seq<char>>>, nt: Seq<Option<Seq<char>>>|
        StageInput {
            old_names: block_names(old),
            new_names: block_names(new),
            old_tokens: ot,
            new_tokens: nt,
        };
    let s1 = match marker_key {
        Some(k) => after_stage(s0, input(key_tokens(old, k), key_tokens(new, k)), Confidence::Marker),
        None => s0,
    };
    let s2 = after_stage(s1, input(key_tokens(old, id_key()), key_tokens(new, id_key())), Confidence::Id);
    after_stage(
        s2,
        input(signature_tokens(old, signature_keys), signature_tokens(new, signature_keys)),
        Confidence::Signature,
    )
}

fn names_of(blocks: &Vec<Block>) -> (r: Vec<String>)
    ensures
        names_view(r@) == block_names(blocks_view(blocks@)),
{
    let mut out: Vec<String> = Vec::new();
    let mut i: usize = 0;
    while i < blocks.len()
        invariant
            i <= blocks@.len(),
            names_view(out@) == block_names(blocks_view(blocks@)).subrange(0, i as int),
        decreases blocks.len() - i,
    {
        let ghost prev = names_view(out@);
        out.push(blocks[i].name.clone());
        assert(names_view(out@) =~= prev.push(blocks@[i as int].name@));
        assert(block_names(blocks_view(blocks@))[i as int] == blocks@[i as int].name@);
        assert(names_view(out@) =~= block_names(blocks_view(blocks@)).subrange(0, i + 1));
        i = i + 1;
    }
    assert(block_names(blocks_view(blocks@)).subrange(0, blocks@.len() as int) =~= block_names(blocks_view(blocks@)));
    out
}

fn tokens_by_key(blocks: &Vec<Block>, key: &str) -> (r: Vec<Option<String>>)
    ensures
        tokens_view(r@) == key_tokens(blocks_view(blocks@), key@),
        r@.len() == blocks@.len(),
{
    let ghost want = key_tokens(blocks_view(blocks@), key@);
    let mut out: Vec<Option<String>> = Vec::new();
    let mut i: usize = 0;
    while i < blocks.len()
        invariant
            want == key_tokens(blocks_view(blocks@), key@),
            i <= blocks@.len(),
            tokens_view(out@) == want.subrange(0, i as int),
        decreases blocks.len() - i,
    {
        let t = kv(&blocks[i], key);
        let ghost tv = match &t {
            Some(x) => Some(x@),
            None => None::<Seq<char>>,
        };
        assert(tv == want[i as int]);
        let ghost prev = tokens_view(out@);
        out.push(t);
        assert(tokens_view(out@) =~= prev.push(tv));
        assert(want.subrange(0, i + 1) =~= want.subrange(0, i as int).push(want[i as int]));
        i = i + 1;
    }
    assert(want.subrange(0, blocks@.len() as int) =~= want);
    out
}

fn tokens_by_signature(blocks: &Vec<Block>, keys: &Vec<String>) -> (r: Vec<Option<String>>)
    ensures
        tokens_view(r@) == signature_tokens(blocks_view(blocks@), keys@.map_values(|k: String| k@)),
        r@.len() == blocks@.len(),
{
    let ghost want = signature_tokens(blocks_view(blocks@), keys@.map_values(|k: String| k@));
    let mut out: Vec<Option<String>> = Vec::new();
    let mut i: usize = 0;
    while i < blocks.len()
        invariant
            want == signature_tokens(blocks_view(blocks@), keys@.map_values(|k: String| k@)),
            i <= blocks@.len(),
            tokens_view(out@) == want.subrange(0, i as int),
        decreases blocks.len() - i,
    {
        let t = signature(&blocks[i], keys);
        let ghost tv = match &t {
            Some(x) => Some(x@),
            None => None::<Seq<char>>,
        };
        assert(tv == want[i as int]);
        let ghost prev = tokens_view(out@);
        out.push(t);
        assert(tokens_view(out@) =~= prev.push(tv));
        assert(want.subrange(0, i + 1) =~= want.subrange(0, i as int).push(want[i as int]));
        i = i + 1;
    }
    assert(want.subrange(0, blocks@.len() as int) =~= want);
    out
}

/// A matching with nothing paired yet.
pub fn fresh(n_old: usize, n_new: usize) -> (r: MatchState)
    ensures
        r@ == fresh_state(n_old as nat, n_new as nat),
        state_wf(r@),
{
    let mut partner: Vec<Option<(usize, Confidence, String)>> = Vec::new();
    let mut i: usize = 0;
    while i < n_old
        invariant
            i <= n_old,
            partner@.len() == i,
            forall|k: int| 0 <= k < i ==> #[trigger] partner@[k] is None,
        decreases n_old - i,
    {
        partner.push(None);
        i = i + 1;
    }
    let mut taken: Vec<bool> = Vec::new();
    let mut j: usize = 0;
    while j < n_new
        invariant
            j <= n_new,
            taken@.len() == j,
            forall|k: int| 0 <= k < j ==> !#[trigger] taken@[k],
        decreases n_new - j,
    {
        taken.push(false);
        j = j + 1;
    }
    let r = MatchState { partner, new_taken: taken };
    assert(r@.partner =~= fresh_state(n_old as nat, n_new as nat).partner);
    assert(r@.taken =~= fresh_state(n_old as nat, n_new as nat).taken);
    r
}

/// Runs the token stages over blocks of the earlier (`old`) and the later
/// (`new`) state. Matching never crosses block kinds.
pub fn match_exact(old: &Vec<Block>, new: &Vec<Block>, opts: &MatchOptions) -> (r: MatchState)
    ensures
        r@ == exact_stages(
            blocks_view(old@),
            blocks_view(new@),
            match opts.marker_key {
                Some(k) => Some(k@),
                None => None,
            },
            opts.signature_keys@.map_values(|k: String| k@),
        ),
        state_wf(r@),
        forall|i: int| 0 <= i < r@.partner.len() && #[trigger] r@.partner[i] is Some ==> link_score(
            r.partner@[i],
        ) == exact_score(),
{
    let old_names = names_of(old);
    let new_names = names_of(new);
    assert(old_names@.len() == names_view(old_names@).len());
    assert(new_names@.len() == names_view(new_names@).len());
    let mut state = fresh(old.len(), new.len());
    match &opts.marker_key {
        Some(k) => {
            let ot = tokens_by_key(old, k.as_str());
            let nt = tokens_by_key(new, k.as_str());
            run_stage(&mut state, &old_names, &new_names, &ot, &nt, Confidence::Marker);
        },
        None => {},
    }
    let ghost s1 = state;
    let ot = tokens_by_key(old, "id");
    let nt = tokens_by_key(new, "id");
    proof {
        reveal_strlit("id");
        assert("id"@ =~= id_key());
    }
    run_stage(&mut state, &old_names, &new_names, &ot, &nt, Confidence::Id);
    let ghost s2 = state;
    let ot = tokens_by_signature(old, &opts.signature_keys);
    let nt = tokens_by_signature(new, &opts.signature_keys);
    run_stage(&mut state, &old_names, &new_names, &ot, &nt, Confidence::Signature);
    assert forall|i: int| 0 <= i < state@.partner.len() && #[trigger] state@.partner[i] is Some
        implies link_score(state.partner@[i]) == exact_score() by {
        if s2@.partner[i] is Some {
            assert(state.partner@[i] == s2.partner@[i]);
            if s1@.partner[i] is Some {
                assert(s2.partner@[i] == s1.partner@[i]);
            }
        }
    }
    state
}

// ---------------------------------------------------------------------------
// The similarity stage.
// ---------------------------------------------------------------------------

/// A candidate pair of the similarity stage, with its score as written with two
/// decimals.
#[derive(Debug)]
pub struct Scored {
    pub old: usize,
    pub new: usize,
    pub score: String,
}

/// Whether a candidate can still be taken: both blocks free and of one kind.
pub open spec fn takeable(s: StateView, names_old: Seq<Seq<char>>, names_new: Seq<Seq<char>>, i: int, j: int) -> bool {
    &&& 0 <= i < s.partner.len()
    &&& 0 <= j < s.taken.len()
    &&& s.partner[i] is None
    &&& !s.taken[j]
    &&& names_old[i] == names_new[j]
}

/// The state after taking the candidates in order, each one whose blocks are
/// both still free.
pub open spec fn greedy(
    s: StateView,
    names_old: Seq<Seq<char>>,
    names_new: Seq<Seq<char>>,
    cands: Seq<(int, int)>,
) -> StateView
    decreases cands.len(),
{
    if cands.len() == 0 {
        s
    } else {
        let prev = greedy(s, names_old, names_new, cands.drop_last());
        let c = cands.last();
        if takeable(prev, names_old, names_new, c.0, c.1) {
            StateView {
                partner: prev.partner.update(c.0, Some((c.1, Confidence::Similarity))),
                taken: prev.taken.update(c.1, true),
            }
        } else {
            prev
        }
    }
}

/// The positions of a list of candidates.
pub open spec fn cands_view(c: Seq<Scored>) -> Seq<(int, int)> {
    c.map_values(|x: Scored| (x.old as int, x.new as int))
}

/// The link of a block the similarity stage paired carries the score of the
/// candidate that paired it: the first candidate naming that pair.
pub open spec fn scored_link(cands: Seq<Scored>, i: int, p: Option<(usize, Confidence, String)>) -> bool {
    match p {
        Some(x) => exists|k: int|
            0 <= k < cands.len() && cands[k].old == i && cands[k].new == x.0 && cands[k].score@ == x.2@ && forall|k2: int|
                0 <= k2 < k ==> !(cands[k2].old == i && cands[k2].new == x.0),
        None => true,
    }
}

/// Takes the similarity candidates, best first as given, skipping any whose
/// blocks are already paired. Candidates are expected to be of one kind; one
/// that is not is skipped. Each pair taken records its candidate's score.
pub fn pair_scored(state: &mut MatchState, olds: &Vec<Block>, news: &Vec<Block>, cands: &Vec<Scored>)
    requires
        state_wf(old(state)@),
        old(state)@.partner.len() == olds@.len(),
        old(state)@.taken.len() == news@.len(),
    ensures
        final(state)@ == greedy(
            old(state)@,
            block_names(blocks_view(olds@)),
            block_names(blocks_view(news@)),
            cands_view(cands@),
        ),
        state_wf(final(state)@),
        forall|i: int| 0 <= i < olds@.len() && (#[trigger] old(state).partner@[i]) is Some ==> final(state).partner@[i]
            == old(state).partner@[i],
        forall|i: int| 0 <= i < olds@.len() && (#[trigger] old(state).partner@[i]) is None ==> scored_link(
            cands@,
            i,
            final(state).partner@[i],
        ),
{
    let ghost no = block_names(blocks_view(olds@));
    let ghost nn = block_names(blocks_view(news@));
    let ghost cv = cands_view(cands@);
    let mut k: usize = 0;
    while k < cands.len()
        invariant
            no == block_names(blocks_view(olds@)),
            nn == block_names(blocks_view(news@)),
            cv == cands_view(cands@),
            k <= cands@.len(),
            state@ == greedy(old(state)@, no, nn, cv.subrange(0, k as int)),
            state_wf(state@),
            state@.partner.len() == olds@.len(),
            state@.taken.len() == news@.len(),
            forall|i: int| 0 <= i < olds@.len() && (#[trigger] old(state).partner@[i]) is Some ==> state.partner@[i]
                == old(state).partner@[i],
            forall|i: int| 0 <= i < olds@.len() && (#[trigger] old(state).partner@[i]) is None ==> scored_link(
                cands@.subrange(0, k as int),
                i,
                state.partner@[i],
            ),
            forall|k2: int| 0 <= k2 < k ==> {
                let c = #[trigger] cands@[k2];
                c.old < olds@.len() && c.new < news@.len() && olds@[c.old as int].name@ == news@[c.new as int].name@
                    ==> state.partner@[c.old as int] is Some || state.new_taken@[c.new as int]
            },
        decreases cands.len() - k,
    {
        let c = &cands[k];
        let ghost bp = state.partner@;
        let ghost bt = state.new_taken@;
        let ghost sub = cands@.subrange(0, k as int);
        let ghost sub1 = cands@.subrange(0, k + 1);
        assert(cv.subrange(0, k + 1).drop_last() =~= cv.subrange(0, k as int));
        assert(cv.subrange(0, k + 1).last() == (c.old as int, c.new as int));
        let ghost before = state@;
        if c.old < state.partner.len() && c.new < state.new_taken.len() {
            assert(before.partner[c.old as int] is None <==> state.partner@[c.old as int] is None);
            assert(no[c.old as int] == olds@[c.old as int].name@);
            assert(nn[c.new as int] == news@[c.new as int].name@);
            if state.partner[c.old].is_none() && !state.new_taken[c.new]
                && olds[c.old].name == news[c.new].name {
                state.partner.set(c.old, Some((c.new, Confidence::Similarity, c.score.clone())));
                state.new_taken.set(c.new, true);
                assert(state@.partner =~= before.partner.update(
                    c.old as int,
                    Some((c.new as int, Confidence::Similarity)),
                ));
                proof {
                    let f = state@;
                    assert forall|a: int, b: int|
                        0 <= a < f.partner.len() && 0 <= b < f.partner.len() && a != b
                            && f.partner[a] is Some && f.partner[b] is Some implies link_target(
                        #[trigger] f.partner[a],
                    ) != link_target(#[trigger] f.partner[b]) by {
                        if a == c.old as int {
                            assert(before.partner[b] is Some);
                        } else if b == c.old as int {
                            assert(before.partner[a] is Some);
                        }
                    }
                    assert forall|j: int| 0 <= j < f.taken.len() && #[trigger] f.taken[j] implies exists|a: int|
                        0 <= a < f.partner.len() && link_target(f.partner[a]) == j by {
                        if j == c.new as int {
                            assert(link_target(f.partner[c.old as int]) == j);
                        } else {
                            let a = choose|a: int|
                                0 <= a < before.partner.len() && link_target(before.partner[a]) == j;
                            assert(a != c.old as int);
                            assert(f.partner[a] == before.partner[a]);
                        }
                    }
                }
            }
        }
        proof {
            assert forall|i: int| 0 <= i < olds@.len() && (#[trigger] old(state).partner@[i]) is None implies scored_link(
                sub1,
                i,
                state.partner@[i],
            ) by {
                if bp[i] is Some && state.partner@[i] == bp[i] {
                    assert(scored_link(sub, i, bp[i]));
                    let x = bp[i]->Some_0;
                    let kk = choose|kk: int|
                        0 <= kk < sub.len() && sub[kk].old == i && sub[kk].new == x.0 && sub[kk].score@ == x.2@
                            && forall|k2: int| 0 <= k2 < kk ==> !(sub[k2].old == i && sub[k2].new == x.0);
                    assert(sub1[kk] == sub[kk]);
                    assert forall|k2: int| 0 <= k2 < kk implies !(sub1[k2].old == i && sub1[k2].new == x.0) by {
                        assert(sub1[k2] == sub[k2]);
                    }
                } else if state.partner@[i] is Some {
                    let x = state.partner@[i]->Some_0;
                    assert(i == c.old && x.0 == c.new && x.2@ == c.score@);
                    assert(sub1[k as int] == cands@[k as int]);
                    assert forall|k2: int| 0 <= k2 < k implies !(sub1[k2].old == i && sub1[k2].new == x.0) by {
                        assert(sub1[k2] == cands@[k2]);
                        let c2 = cands@[k2];
                        if c2.old == i && c2.new == x.0 {
                            assert(bp[c2.old as int] is Some || bt[c2.new as int]);
                        }
                    }
                }
            }
            assert forall|k2: int| 0 <= k2 < k + 1 implies {
                let c2 = #[trigger] cands@[k2];
                c2.old < olds@.len() && c2.new < news@.len() && olds@[c2.old as int].name@ == news@[c2.new as int].name@
                    ==> state.partner@[c2.old as int] is Some || state.new_taken@[c2.new as int]
            } by {
                let c2 = cands@[k2];
                if k2 < k && c2.old < olds@.len() && c2.new < news@.len() && olds@[c2.old as int].name@ == news@[c2.new as int].name@ {
                    if bp[c2.old as int] is Some {
                        assert(state.partner@[c2.old as int] is Some);
                    } else {
                        assert(bt[c2.new as int]);
                    }
                }
            }
        }
        k = k + 1;
    }
    assert(cv.subrange(0, cands@.len() as int) =~= cv);
    assert(cands@.subrange(0, cands@.len() as int) =~= cands@);
}

// ---------------------------------------------------------------------------
// What the similarity stage looks at.
// ---------------------------------------------------------------------------

/// The blocks of one kind that the exact stages left unpaired on each side, in
/// ascending order. Similarity never pairs blocks of different kinds.
#[derive(Debug)]
pub struct FreeGroup {
    pub name: String,
    pub olds: Vec<usize>,
    pub news: Vec<usize>,
}

/// Old block `i` is still unpaired.
pub open spec fn old_free(s: StateView, i: int) -> bool {
    0 <= i < s.partner.len() && s.partner[i] is None
}

/// New block `j` is still unpaired.
pub open spec fn new_free(s: StateView, j: int) -> bool {
    0 <= j < s.taken.len() && !s.taken[j]
}

/// `v` lists, in ascending order, exactly the positions `free` names whose
/// block is of kind `name`.
pub open spec fn lists_kind(v: Seq<usize>, free: spec_fn(int) -> bool, blocks: Seq<Block>, name: Seq<char>) -> bool {
    &&& forall|x: int| 0 <= x < v.len() ==> #[trigger] free(v[x] as int) && blocks[v[x] as int].name@ == name
    &&& forall|x: int, y: int| 0 <= x < y < v.len() ==> v[x] < v[y]
    &&& forall|i: int| #[trigger] free(i) && blocks[i].name@ == name ==> exists|x: int| 0 <= x < v.len() && v[x] == i
}

/// Every kind with a free block on either side, once, with its free blocks.
pub open spec fn grouped(r: Seq<FreeGroup>, s: StateView, olds: Seq<Block>, news: Seq<Block>) -> bool {
    &&& forall|k: int| 0 <= k < r.len() ==> lists_kind((#[trigger] r[k]).olds@, |i: int| old_free(s, i), olds, r[k].name@)
    &&& forall|k: int| 0 <= k < r.len() ==> lists_kind((#[trigger] r[k]).news@, |j: int| new_free(s, j), news, r[k].name@)
    &&& forall|k: int, l: int| 0 <= k < l < r.len() ==> r[k].name@ != r[l].name@
    &&& forall|i: int| old_free(s, i) ==> exists|k: int| 0 <= k < r.len() && (#[trigger] r[k]).name@ == olds[i].name@
    &&& forall|j: int| new_free(s, j) ==> exists|k: int| 0 <= k < r.len() && (#[trigger] r[k]).name@ == news[j].name@
}

fn find_group(groups: &Vec<FreeGroup>, name: &String) -> (r: Option<usize>)
    ensures
        r matches Some(k) ==> k < groups@.len() && groups@[k as int].name@ == name@,
        r is None ==> forall|k: int| 0 <= k < groups@.len() ==> (#[trigger] groups@[k]).name@ != name@,
{
    let mut k: usize = 0;
    while k < groups.len()
        invariant
            k <= groups@.len(),
            forall|q: int| 0 <= q < k ==> (#[trigger] groups@[q]).name@ != name@,
        decreases groups.len() - k,
    {
        if crate::marker::str_eq(groups[k].name.as_str(), name.as_str()) {
            return Some(k);
        }
        k = k + 1;
    }
    None
}

/// The blocks the similarity stage may still pair, grouped by kind.
pub fn free_groups(state: &MatchState, olds: &Vec<Block>, news: &Vec<Block>) -> (r: Vec<FreeGroup>)
    requires
        state@.partner.len() == olds@.len(),
        state@.taken.len() == news@.len(),
    ensures
        grouped(r@, state@, olds@, news@),
{
    let ghost s = state@;
    let ghost fo = |i: int| old_free(s, i);
    let ghost fnw = |j: int| new_free(s, j);
    let mut groups: Vec<FreeGroup> = Vec::new();
    let mut i: usize = 0;
    while i < olds.len()
        invariant
            s == state@,
            fo == (|i: int| old_free(s, i)),
            s.partner.len() == olds@.len(),
            i <= olds@.len(),
            forall|k: int| 0 <= k < groups@.len() ==> (#[trigger] groups@[k]).news@.len() == 0,
            forall|k: int, x: int| 0 <= k < groups@.len() && 0 <= x < groups@[k].olds@.len() ==> {
                let v = #[trigger] groups@[k].olds@[x];
                v < i && old_free(s, v as int) && olds@[v as int].name@ == groups@[k].name@
            },
            forall|k: int, x: int, y: int| 0 <= k < groups@.len() && 0 <= x < y < groups@[k].olds@.len() ==> #[trigger] groups@[k].olds@[x]
                < #[trigger] groups@[k].olds@[y],
            forall|k: int, i2: int| #![trigger groups@[k], old_free(s, i2)] 0 <= k < groups@.len() && 0 <= i2 < i && old_free(s, i2)
                && olds@[i2].name@ == groups@[k].name@ ==> exists|x: int| 0 <= x < groups@[k].olds@.len() && groups@[k].olds@[x] == i2,
            forall|i2: int| 0 <= i2 < i && #[trigger] old_free(s, i2) ==> exists|k: int| 0 <= k < groups@.len() && (#[trigger] groups@[k]).name@ == olds@[i2].name@,
            forall|k: int, l: int| 0 <= k < l < groups@.len() ==> groups@[k].name@ != groups@[l].name@,
        decreases olds.len() - i,
    {
        let ghost before = groups@;
        let ghost nm = olds@[i as int].name@;
        if state.partner[i].is_none() {
            assert(old_free(s, i as int));
            match find_group(&groups, &olds[i].name) {
                Some(k) => {
                    groups[k].olds.push(i);
                    assert forall|q: int| 0 <= q < groups@.len() && q != k implies groups@[q] == before[q] by {}
                    assert(groups@[k as int].olds@ == before[k as int].olds@.push(i));
                    assert forall|k2: int, i2: int| #![trigger groups@[k2], old_free(s, i2)] 0 <= k2 < groups@.len() && 0 <= i2 < i + 1
                        && old_free(s, i2) && olds@[i2].name@ == groups@[k2].name@ implies exists|x: int|
                        0 <= x < groups@[k2].olds@.len() && groups@[k2].olds@[x] == i2 by {
                        if i2 == i {
                            if k2 != k {
                                assert(before[k2].name@ == before[k as int].name@);
                            }
                            assert(groups@[k2].olds@[groups@[k2].olds@.len() - 1] == i2);
                        } else {
                            assert(before[k2] == groups@[k2] || k2 == k);
                            assert(old_free(s, i2) && olds@[i2].name@ == before[k2].name@);
                            let x = choose|x: int| 0 <= x < before[k2].olds@.len() && before[k2].olds@[x] == i2;
                            assert(groups@[k2].olds@[x] == i2);
                        }
                    }
                    assert forall|i2: int| 0 <= i2 < i + 1 && #[trigger] old_free(s, i2) implies exists|k2: int|
                        0 <= k2 < groups@.len() && (#[trigger] groups@[k2]).name@ == olds@[i2].name@ by {
                        if i2 == i {
                            assert(groups@[k as int].name@ == olds@[i2].name@);
                        } else {
                            let k2 = choose|k2: int| 0 <= k2 < before.len() && (#[trigger] before[k2]).name@ == olds@[i2].name@;
                            assert(groups@[k2].name@ == before[k2].name@);
                        }
                    }
                },
                None => {
                    let mut one: Vec<usize> = Vec::new();
                    one.push(i);
                    groups.push(FreeGroup { name: olds[i].name.clone(), olds: one, news: Vec::new() });
                    assert forall|q: int| 0 <= q < before.len() implies groups@[q] == before[q] by {}
                    let ghost n = before.len() as int;
                    assert forall|k2: int, i2: int| #![trigger groups@[k2], old_free(s, i2)] 0 <= k2 < groups@.len() && 0 <= i2 < i + 1
                        && old_free(s, i2) && olds@[i2].name@ == groups@[k2].name@ implies exists|x: int|
                        0 <= x < groups@[k2].olds@.len() && groups@[k2].olds@[x] == i2 by {
                        if k2 == n {
                            if i2 < i {
                                let k3 = choose|k3: int| 0 <= k3 < before.len() && (#[trigger] before[k3]).name@ == olds@[i2].name@;
                                assert(before[k3].name@ != nm);
                            }
                            assert(groups@[k2].olds@[0] == i2);
                        } else {
                            assert(groups@[k2] == before[k2]);
                            if i2 == i {
                                assert(before[k2].name@ != nm);
                            }
                        }
                    }
                    assert forall|i2: int| 0 <= i2 < i + 1 && #[trigger] old_free(s, i2) implies exists|k2: int|
                        0 <= k2 < groups@.len() && (#[trigger] groups@[k2]).name@ == olds@[i2].name@ by {
                        if i2 == i {
                            assert(groups@[n].name@ == olds@[i2].name@);
                        } else {
                            let k2 = choose|k2: int| 0 <= k2 < before.len() && (#[trigger] before[k2]).name@ == olds@[i2].name@;
                            assert(groups@[k2].name@ == before[k2].name@);
                        }
                    }
                },
            }
        } else {
            assert(!old_free(s, i as int));
        }
        i = i + 1;
    }
    let mut j: usize = 0;
    while j < news.len()
        invariant
            s == state@,
            fo == (|i: int| old_free(s, i)),
            fnw == (|j: int| new_free(s, j)),
            s.partner.len() == olds@.len(),
            s.taken.len() == news@.len(),
            j <= news@.len(),
            forall|k: int| 0 <= k < groups@.len() ==> lists_kind((#[trigger] groups@[k]).olds@, fo, olds@, groups@[k].name@),
            forall|k: int, x: int| 0 <= k < groups@.len() && 0 <= x < groups@[k].news@.len() ==> {
                let v = #[trigger] groups@[k].news@[x];
                v < j && new_free(s, v as int) && news@[v as int].name@ == groups@[k].name@
            },
            forall|k: int, x: int, y: int| 0 <= k < groups@.len() && 0 <= x < y < groups@[k].news@.len() ==> #[trigger] groups@[k].news@[x]
                < #[trigger] groups@[k].news@[y],
            forall|k: int, j2: int| #![trigger groups@[k], new_free(s, j2)] 0 <= k < groups@.len() && 0 <= j2 < j && new_free(s, j2)
                && news@[j2].name@ == groups@[k].name@ ==> exists|x: int| 0 <= x < groups@[k].news@.len() && groups@[k].news@[x] == j2,
            forall|i2: int| #[trigger] old_free(s, i2) ==> exists|k: int| 0 <= k < groups@.len() && (#[trigger] groups@[k]).name@ == olds@[i2].name@,
            forall|j2: int| 0 <= j2 < j && #[trigger] new_free(s, j2) ==> exists|k: int| 0 <= k < groups@.len() && (#[trigger] groups@[k]).name@ == news@[j2].name@,
            forall|k: int, l: int| 0 <= k < l < groups@.len() ==> groups@[k].name@ != groups@[l].name@,
        decreases news.len() - j,
    {
        let ghost before = groups@;
        let ghost nm = news@[j as int].name@;
        if !state.new_taken[j] {
            assert(new_free(s, j as int));
            match find_group(&groups, &news[j].name) {
                Some(k) => {
                    groups[k].news.push(j);
                    assert forall|q: int| 0 <= q < groups@.len() && q != k implies groups@[q] == before[q] by {}
                    assert(groups@[k as int].news@ == before[k as int].news@.push(j));
                    assert(groups@[k as int].olds@ == before[k as int].olds@);
                    assert forall|k2: int, j2: int| #![trigger groups@[k2], new_free(s, j2)] 0 <= k2 < groups@.len() && 0 <= j2 < j + 1
                        && new_free(s, j2) && news@[j2].name@ == groups@[k2].name@ implies exists|x: int|
                        0 <= x < groups@[k2].news@.len() && groups@[k2].news@[x] == j2 by {
                        if j2 == j {
                            if k2 != k {
                                assert(before[k2].name@ == before[k as int].name@);
                            }
                            assert(groups@[k2].news@[groups@[k2].news@.len() - 1] == j2);
                        } else {
                            assert(new_free(s, j2) && news@[j2].name@ == before[k2].name@);
                            let x = choose|x: int| 0 <= x < before[k2].news@.len() && before[k2].news@[x] == j2;
                            assert(groups@[k2].news@[x] == j2);
                        }
                    }
                    assert forall|j2: int| 0 <= j2 < j + 1 && #[trigger] new_free(s, j2) implies exists|k2: int|
                        0 <= k2 < groups@.len() && (#[trigger] groups@[k2]).name@ == news@[j2].name@ by {
                        if j2 == j {
                            assert(groups@[k as int].name@ == news@[j2].name@);
                        } else {
                            let k2 = choose|k2: int| 0 <= k2 < before.len() && (#[trigger] before[k2]).name@ == news@[j2].name@;
                            assert(groups@[k2].name@ == before[k2].name@);
                        }
                    }
                    assert forall|i2: int| #[trigger] old_free(s, i2) implies exists|k2: int| 0 <= k2 < groups@.len()
                        && (#[trigger] groups@[k2]).name@ == olds@[i2].name@ by {
                        let k2 = choose|k2: int| 0 <= k2 < before.len() && (#[trigger] before[k2]).name@ == olds@[i2].name@;
                        assert(groups@[k2].name@ == before[k2].name@);
                    }
                },
                None => {
                    let mut one: Vec<usize> = Vec::new();
                    one.push(j);
                    groups.push(FreeGroup { name: news[j].name.clone(), olds: Vec::new(), news: one });
                    assert forall|q: int| 0 <= q < before.len() implies groups@[q] == before[q] by {}
                    let ghost n = before.len() as int;
                    assert(lists_kind(groups@[n].olds@, fo, olds@, groups@[n].name@)) by {
                        assert forall|i2: int| #[trigger] fo(i2) && olds@[i2].name@ == groups@[n].name@ implies exists|x: int|
                            0 <= x < groups@[n].olds@.len() && groups@[n].olds@[x] == i2 by {
                            assert(old_free(s, i2));
                            let k = choose|k: int| 0 <= k < before.len() && (#[trigger] before[k]).name@ == olds@[i2].name@;
                            assert(before[k].name@ != nm);
                        }
                    }
                    assert forall|k2: int, j2: int| #![trigger groups@[k2], new_free(s, j2)] 0 <= k2 < groups@.len() && 0 <= j2 < j + 1
                        && new_free(s, j2) && news@[j2].name@ == groups@[k2].name@ implies exists|x: int|
                        0 <= x < groups@[k2].news@.len() && groups@[k2].news@[x] == j2 by {
                        if k2 == n {
                            if j2 < j {
                                let k3 = choose|k3: int| 0 <= k3 < before.len() && (#[trigger] before[k3]).name@ == news@[j2].name@;
                                assert(before[k3].name@ != nm);
                            }
                            assert(groups@[k2].news@[0] == j2);
                        } else {
                            assert(groups@[k2] == before[k2]);
                            if j2 == j {
                                assert(before[k2].name@ != nm);
                            }
                        }
                    }
                    assert forall|j2: int| 0 <= j2 < j + 1 && #[trigger] new_free(s, j2) implies exists|k2: int|
                        0 <= k2 < groups@.len() && (#[trigger] groups@[k2]).name@ == news@[j2].name@ by {
                        if j2 == j {
                            assert(groups@[n].name@ == news@[j2].name@);
                        } else {
                            let k2 = choose|k2: int| 0 <= k2 < before.len() && (#[trigger] before[k2]).name@ == news@[j2].name@;
                            assert(groups@[k2].name@ == before[k2].name@);
                        }
                    }
                    assert forall|i2: int| #[trigger] old_free(s, i2) implies exists|k2: int| 0 <= k2 < groups@.len()
                        && (#[trigger] groups@[k2]).name@ == olds@[i2].name@ by {
                        let k2 = choose|k2: int| 0 <= k2 < before.len() && (#[trigger] before[k2]).name@ == olds@[i2].name@;
                        assert(groups@[k2].name@ == before[k2].name@);
                    }
                },
            }
        } else {
            assert(!new_free(s, j as int));
        }
        j = j + 1;
    }
    groups
}

// ---------------------------------------------------------------------------
// The outcome.
// ---------------------------------------------------------------------------

/// The view of a [`Pair`], without its score.
pub open spec fn pair_view(p: Pair) -> (int, int, Confidence) {
    (p.old as int, p.new as int, p.confidence)
}

/// The pairs of the first `n` old blocks, in order.
pub open spec fn pairs_upto(partner: Seq<Option<(int, Confidence)>>, n: int) -> Seq<(int, int, Confidence)>
    decreases n,
{
    if n <= 0 {
        Seq::empty()
    } else {
        match partner[n - 1] {
            Some(p) => pairs_upto(partner, n - 1).push((n - 1, p.0, p.1)),
            None => pairs_upto(partner, n - 1),
        }
    }
}

/// The positions among the first `n` for which `free` holds, in order.
pub open spec fn free_upto(free: spec_fn(int) -> bool, n: int) -> Seq<int>
    decreases n,
{
    if n <= 0 {
        Seq::empty()
    } else if free(n - 1) {
        free_upto(free, n - 1).push(n - 1)
    } else {
        free_upto(free, n - 1)
    }
}

/// The pairs of a state, in ascending order of the old block.
pub open spec fn state_pairs(s: StateView) -> Seq<(int, int, Confidence)> {
    pairs_upto(s.partner, s.partner.len() as int)
}

/// The old blocks a state leaves unpaired, ascending.
pub open spec fn state_only_old(s: StateView) -> Seq<int> {
    free_upto(|i: int| s.partner[i] is None, s.partner.len() as int)
}

/// The new blocks a state leaves unpaired, ascending.
pub open spec fn state_only_new(s: StateView) -> Seq<int> {
    free_upto(|j: int| !s.taken[j], s.taken.len() as int)
}

/// Reads the outcome off a state.
pub fn finish(state: &MatchState) -> (r: Matching)
    ensures
        r.pairs@.map_values(|p: Pair| pair_view(p)) == state_pairs(state@),
        r.only_old@.map_values(|i: usize| i as int) == state_only_old(state@),
        r.only_new@.map_values(|i: usize| i as int) == state_only_new(state@),
        forall|k: int| 0 <= k < r.pairs@.len() ==> #[trigger] r.pairs@[k].score@ == link_score(
            state.partner@[r.pairs@[k].old as int],
        ),
        state_wf(state@) ==> crate::diff::matching_fits(r, state@.partner.len(), state@.taken.len()),
{
    let ghost sv = state@;
    let mut pairs: Vec<Pair> = Vec::new();
    let mut only_old: Vec<usize> = Vec::new();
    let mut i: usize = 0;
    while i < state.partner.len()
        invariant
            sv == state@,
            i <= state.partner@.len(),
            pairs@.map_values(|p: Pair| pair_view(p)) == pairs_upto(sv.partner, i as int),
            only_old@.map_values(|x: usize| x as int) == free_upto(
                |q: int| sv.partner[q] is None,
                i as int,
            ),
            forall|k: int| 0 <= k < pairs@.len() ==> (#[trigger] pairs@[k]).old < i && pairs@[k].score@
                == link_score(state.partner@[pairs@[k].old as int]),
        decreases state.partner.len() - i,
    {
        let ghost pv = pairs@.map_values(|p: Pair| pair_view(p));
        let ghost ov = only_old@.map_values(|x: usize| x as int);
        match &state.partner[i] {
            Some((j, c, sc)) => {
                assert(sv.partner[i as int] == Some((*j as int, *c)));
                pairs.push(Pair { old: i, new: *j, confidence: *c, score: sc.clone() });
                assert(pairs@.map_values(|p: Pair| pair_view(p)) =~= pv.push((i as int, *j as int, *c)));
            },
            None => {
                assert(sv.partner[i as int] is None);
                only_old.push(i);
                assert(only_old@.map_values(|x: usize| x as int) =~= ov.push(i as int));
            },
        }
        i = i + 1;
    }
    let mut only_new: Vec<usize> = Vec::new();
    let mut j: usize = 0;
    while j < state.new_taken.len()
        invariant
            sv == state@,
            j <= state.new_taken@.len(),
            only_new@.map_values(|x: usize| x as int) == free_upto(|q: int| !sv.taken[q], j as int),
        decreases state.new_taken.len() - j,
    {
        let ghost nv = only_new@.map_values(|x: usize| x as int);
        if !state.new_taken[j] {
            only_new.push(j);
            assert(only_new@.map_values(|x: usize| x as int) =~= nv.push(j as int));
        }
        j = j + 1;
    }
    let r = Matching { pairs, only_old, only_new };
    proof {
        if state_wf(sv) {
            crate::laws::lemma_pairs_upto(sv.partner, sv.partner.len() as int);
            crate::laws::lemma_free_upto(|i: int| sv.partner[i] is None, sv.partner.len() as int);
            crate::laws::lemma_free_upto(|j: int| !sv.taken[j], sv.taken.len() as int);
            let ps = state_pairs(sv);
            assert forall|k: int| 0 <= k < r.pairs@.len() implies (#[trigger] r.pairs@[k]).old < sv.partner.len()
                && r.pairs@[k].new < sv.taken.len() by {
                assert(r.pairs@.map_values(|p: Pair| pair_view(p))[k] == pair_view(r.pairs@[k]));
                assert(sv.partner[ps[k].0] == Some((ps[k].1, ps[k].2)));
            }
            assert forall|k: int| 0 <= k < r.only_old@.len() implies #[trigger] r.only_old@[k] < sv.partner.len() by {
                assert(r.only_old@.map_values(|i: usize| i as int)[k] == r.only_old@[k] as int);
            }
            assert forall|k: int| 0 <= k < r.only_new@.len() implies #[trigger] r.only_new@[k] < sv.taken.len() by {
                assert(r.only_new@.map_values(|i: usize| i as int)[k] == r.only_new@[k] as int);
            }
        }
    }
    r
}

/// The characters of `entity`.
pub open spec fn entity_kind() -> Seq<char> {
    seq!['e', 'n', 't', 'i', 't', 'y']
}

/// The blocks the matcher compares for a list of entities: each entity's
/// keyvalues under the kind `entity`, its brushes and connections left out.
pub fn blocks_of(list: &Vec<crate::model::EntityModel>) -> (r: Vec<Block>)
    ensures
        r@.len() == list@.len(),
        forall|i: int|
            0 <= i < list@.len() ==> (#[trigger] r@[i])@ == (BlockView {
                name: entity_kind(),
                key_values: list@[i]@.key_values,
            }),
{
    let mut out: Vec<Block> = Vec::new();
    let mut i: usize = 0;
    while i < list.len()
        invariant
            i <= list@.len(),
            out@.len() == i,
            forall|j: int|
                0 <= j < i ==> (#[trigger] out@[j])@ == (BlockView {
                    name: entity_kind(),
                    key_values: list@[j]@.key_values,
                }),
        decreases list.len() - i,
    {
        let name = owned("entity");
        proof {
            reveal_strlit("entity");
        }
        assert(name@ =~= entity_kind());
        out.push(Block { name, key_values: kv_clone(&list[i].key_values) });
        i = i + 1;
    }
    out
}

} // verus!
