//! The keybinding layer: raw key-chord strings such as `"M-S-j"` are parsed
//! into a canonical form — a modifier bitmask and a keysym name — so that
//! the order the modifiers were written in cannot matter. A dispatch table
//! maps canonical chords to actions; an unrecognized chord is a no-op.

use vstd::prelude::*;
use vstd::string::StrSliceExecFns;
use crate::errors::WmError;
use crate::layout::LayoutMessage;

verus! {

/// Meta (super) modifier bit.
pub const MOD_META: u8 = 1;

/// Alt modifier bit.
pub const MOD_ALT: u8 = 2;

/// Shift modifier bit.
pub const MOD_SHIFT: u8 = 4;

/// Control modifier bit.
pub const MOD_CTRL: u8 = 8;

/// A canonical key-chord: the modifier set as a bitmask and the keysym
/// name. Two chords written with their modifiers in different orders
/// canonicalize to equal values.
#[derive(Debug, Clone, PartialEq, Eq)]
pub struct Chord {
    pub mods: u8,
    pub key: String,
}

/// What a key press is bound to: a tagged command rather than an arbitrary
/// closure, plus one variant for an external command line.
#[derive(Debug, PartialEq, Eq)]
pub enum Action {
    FocusDown,
    FocusUp,
    SwapDown,
    SwapUp,
    KillFocused,
    ToggleTag,
    NextScreen,
    PreviousScreen,
    NextLayout,
    PreviousLayout,
    SendLayout(LayoutMessage),
    FocusTag(String),
    MoveFocusedToTag(String),
    Spawn(String),
    Exit,
}

impl Clone for Action {
    /// An action clones to an equal value.
    fn clone(&self) -> (r: Self)
        ensures
            r == *self,
    {
        match self {
            Action::FocusDown => Action::FocusDown,
            Action::FocusUp => Action::FocusUp,
            Action::SwapDown => Action::SwapDown,
            Action::SwapUp => Action::SwapUp,
            Action::KillFocused => Action::KillFocused,
            Action::ToggleTag => Action::ToggleTag,
            Action::NextScreen => Action::NextScreen,
            Action::PreviousScreen => Action::PreviousScreen,
            Action::NextLayout => Action::NextLayout,
            Action::PreviousLayout => Action::PreviousLayout,
            Action::SendLayout(m) => Action::SendLayout(*m),
            Action::FocusTag(t) => Action::FocusTag(t.clone()),
            Action::MoveFocusedToTag(t) => Action::MoveFocusedToTag(t.clone()),
            Action::Spawn(c) => Action::Spawn(c.clone()),
            Action::Exit => Action::Exit,
        }
    }
}

/// A parsed binding: canonical chord and the action it triggers.
#[derive(Debug, Clone, PartialEq, Eq)]
pub struct KeyBinding {
    pub chord: Chord,
    pub action: Action,
}

/// The chord string cut at every `-`: `"M-S-j"` gives `M`, `S`, `j`; two
/// adjacent dashes give an empty token.
pub open spec fn tokens_of(s: Seq<char>) -> Seq<Seq<char>>
    decreases s.len(),
{
    if s.len() == 0 {
        seq![Seq::<char>::empty()]
    } else {
        let rest = tokens_of(s.drop_first());
        if s[0] == '-' {
            seq![Seq::<char>::empty()] + rest
        } else {
            seq![seq![s[0]] + rest[0]] + rest.drop_first()
        }
    }
}

proof fn lemma_tokens_nonempty(s: Seq<char>)
    ensures
        tokens_of(s).len() >= 1,
    decreases s.len(),
{
    if s.len() > 0 {
        lemma_tokens_nonempty(s.drop_first());
    }
}

/// Cutting a string whose first dash sits at `d` yields its prefix as the
/// first token, followed by the cut of what is behind the dash; with no
/// dash at all the whole string is the one token.
proof fn lemma_tokens_split(s: Seq<char>, d: int)
    requires
        0 <= d <= s.len(),
        forall|k: int| 0 <= k < d ==> s[k] != '-',
        d < s.len() ==> s[d] == '-',
    ensures
        d == s.len() ==> tokens_of(s) == seq![s],
        d < s.len() ==> tokens_of(s) == seq![s.take(d)] + tokens_of(s.skip(d + 1)),
    decreases s.len(),
{
    lemma_tokens_nonempty(s);
    if d == 0 {
        if s.len() == 0 {
            assert(tokens_of(s) =~~= seq![s]);
        } else {
            assert(s.take(0) =~= Seq::<char>::empty());
            assert(s.skip(1) =~= s.drop_first());
            assert(tokens_of(s) =~~= seq![s.take(0)] + tokens_of(s.skip(1)));
        }
    } else {
        let s2 = s.drop_first();
        assert(forall|k: int| 0 <= k < d - 1 ==> s2[k] != '-');
        lemma_tokens_split(s2, d - 1);
        let rest = tokens_of(s2);
        lemma_tokens_nonempty(s2);
        if d == s.len() {
            assert(rest == seq![s2]);
            assert(seq![s[0]] + rest[0] =~= s);
            assert(rest.drop_first() =~= Seq::<Seq<char>>::empty());
            assert(tokens_of(s) =~~= seq![s]);
        } else {
            assert(rest == seq![s2.take(d - 1)] + tokens_of(s2.skip(d)));
            assert(rest[0] == s2.take(d - 1));
            assert(seq![s[0]] + s2.take(d - 1) =~= s.take(d));
            assert(rest.drop_first() =~~= tokens_of(s2.skip(d)));
            assert(s2.skip(d) =~= s.skip(d + 1));
            assert(tokens_of(s) =~~= seq![s.take(d)] + tokens_of(s.skip(d + 1)));
        }
    }
}

/// The token is one of the four modifier names.
pub open spec fn is_mod_token(t: Seq<char>) -> bool {
    t == seq!['M'] || t == seq!['A'] || t == seq!['S'] || t == seq!['C']
}

/// The bit a modifier token contributes to the mask.
pub open spec fn mod_bit(t: Seq<char>) -> u8 {
    if t == seq!['M'] {
        MOD_META
    } else if t == seq!['A'] {
        MOD_ALT
    } else if t == seq!['S'] {
        MOD_SHIFT
    } else if t == seq!['C'] {
        MOD_CTRL
    } else {
        0u8
    }
}

/// Folds the tokens into a modifier mask and at most one keysym name.
/// `None` on a second keysym or an empty token: every token must be a
/// modifier name or the one keysym.
pub open spec fn scan_tokens(toks: Seq<Seq<char>>) -> Option<(u8, Option<Seq<char>>)>
    decreases toks.len(),
{
    if toks.len() == 0 {
        Some((0u8, None))
    } else {
        match scan_tokens(toks.drop_last()) {
            None => None,
            Some(acc) => {
                let t = toks.last();
                if is_mod_token(t) {
                    Some((acc.0 | mod_bit(t), acc.1))
                } else if acc.1 is Some {
                    None
                } else if t.len() == 0 {
                    None
                } else {
                    Some((acc.0, Some(t)))
                }
            },
        }
    }
}

/// The canonical form of a chord string: its modifier mask and keysym
/// name, or nothing where the string is not a well-formed chord (no
/// keysym, two keysyms, or an empty token).
pub open spec fn spec_parse_chord(s: Seq<char>) -> Option<(u8, Seq<char>)> {
    match scan_tokens(tokens_of(s)) {
        Some((m, Some(k))) => Some((m, k)),
        _ => None,
    }
}

/// Once the fold has failed on a prefix of the tokens it fails on all of
/// them.
proof fn lemma_scan_none(toks: Seq<Seq<char>>, q: int)
    requires
        0 <= q <= toks.len(),
        scan_tokens(toks.take(q)) is None,
    ensures
        scan_tokens(toks) is None,
    decreases toks.len() - q,
{
    if q < toks.len() {
        assert(toks.take(q + 1).drop_last() =~= toks.take(q));
        lemma_scan_none(toks, q + 1);
    } else {
        assert(toks.take(q) =~= toks);
    }
}

/// The view of an optional owned keysym name.
spec fn key_view(k: Option<String>) -> Option<Seq<char>> {
    match k {
        Some(s) => Some(s@),
        None => None,
    }
}

/// Parses a raw chord string into its canonical form. Succeeds exactly on
/// the strings [`spec_parse_chord`] accepts, and then returns exactly the
/// modifier mask and keysym it names, whatever order the modifiers were
/// written in.
pub fn parse_chord(s: &str) -> (r: Result<Chord, WmError>)
    ensures
        r is Ok <==> spec_parse_chord(s@) is Some,
        r matches Ok(c) ==> spec_parse_chord(s@) == Some((c.mods, c.key@)),
        r is Err ==> r == Err::<Chord, WmError>(WmError::KeymapResolutionFailure),
{
    let len = s.unicode_len();
    let mut i: usize = 0;
    let mut mods: u8 = 0;
    let mut key: Option<String> = None;
    let ghost toks = tokens_of(s@);
    let ghost mut p: int = 0;
    proof {
        lemma_tokens_nonempty(s@);
        assert(s@.skip(0) =~= s@);
        assert(toks.skip(0) =~= toks);
        assert(toks.take(0) =~= Seq::<Seq<char>>::empty());
    }
    loop
        invariant
            len == s@.len(),
            i <= len,
            toks == tokens_of(s@),
            0 <= p < toks.len(),
            toks.skip(p) == tokens_of(s@.skip(i as int)),
            scan_tokens(toks.take(p)) == Some((mods, key_view(key))),
        decreases len - i,
    {
        let mut j: usize = i;
        while j < len && s.get_char(j) != '-'
            invariant
                len == s@.len(),
                i <= j <= len,
                forall|k: int| i <= k < j ==> s@[k] != '-',
            decreases len - j,
        {
            j = j + 1;
        }
        let ghost rem = s@.skip(i as int);
        let ghost tok = s@.subrange(i as int, j as int);
        proof {
            assert(forall|k: int| 0 <= k < j - i ==> rem[k] != '-');
            lemma_tokens_split(rem, j - i);
            assert(rem.take(j - i) =~= tok);
            if j < len {
                assert(rem.skip(j - i + 1) =~= s@.skip(j + 1));
                assert(tokens_of(rem) == seq![tok] + tokens_of(s@.skip(j + 1)));
            } else {
                assert(rem =~= tok);
                assert(tokens_of(rem) == seq![tok]);
            }
            assert(toks.skip(p)[0] == tok);
            assert(toks.skip(p)[0] == toks[p]);
            assert(toks[p] == tok);
            assert(toks.take(p + 1).drop_last() =~= toks.take(p));
            assert(toks.take(p + 1).last() == tok);
        }
        let tlen = j - i;
        let mut matched_mod = false;
        if tlen == 1 {
            let c = s.get_char(i);
            proof {
                assert(tok =~= seq![s@[i as int]]);
            }
            if c == 'M' {
                mods = mods | MOD_META;
                matched_mod = true;
            } else if c == 'A' {
                mods = mods | MOD_ALT;
                matched_mod = true;
            } else if c == 'S' {
                mods = mods | MOD_SHIFT;
                matched_mod = true;
            } else if c == 'C' {
                mods = mods | MOD_CTRL;
                matched_mod = true;
            }
        }
        if matched_mod {
            proof {
                assert(is_mod_token(tok));
                assert(scan_tokens(toks.take(p + 1)) == Some((mods, key_view(key))));
            }
        } else {
            proof {
                assert(!is_mod_token(tok)) by {
                    if tlen == 1 {
                        assert(tok[0] == s@[i as int]);
                    }
                }
            }
            if key.is_some() {
                proof {
                    assert(scan_tokens(toks.take(p + 1)) is None);
                    lemma_scan_none(toks, p + 1);
                }
                return Err(WmError::KeymapResolutionFailure);
            }
            if tlen == 0 {
                proof {
                    assert(scan_tokens(toks.take(p + 1)) is None);
                    lemma_scan_none(toks, p + 1);
                }
                return Err(WmError::KeymapResolutionFailure);
            }
            let k = s.substring_char(i, j).to_owned();
            proof {
                assert(k@ == tok);
                assert(scan_tokens(toks.take(p + 1)) == Some((mods, Some(tok))));
            }
            key = Some(k);
        }
        proof {
            p = p + 1;
        }
        if j == len {
            proof {
                assert(toks.skip(p - 1).len() == 1);
                assert(p == toks.len());
                assert(toks.take(p) =~= toks);
            }
            match key {
                None => {
                    return Err(WmError::KeymapResolutionFailure);
                },
                Some(k) => {
                    return Ok(Chord { mods, key: k });
                },
            }
        }
        i = j + 1;
        proof {
            assert(toks.skip(p - 1) == seq![tok] + tokens_of(s@.skip(i as int)));
            assert(toks.skip(p) =~~= toks.skip(p - 1).skip(1));
            assert((seq![tok] + tokens_of(s@.skip(i as int))).skip(1) =~~= tokens_of(
                s@.skip(i as int),
            ));
            assert(toks.skip(p) == tokens_of(s@.skip(i as int)));
            assert(p < toks.len()) by {
                lemma_tokens_nonempty(s@.skip(i as int));
            }
        }
    }
}

/// Every chord string of the raw table is a well-formed chord.
pub open spec fn all_chords_parse(raw: Seq<(String, Action)>) -> bool {
    forall|i: int| 0 <= i < raw.len() ==> spec_parse_chord((#[trigger] raw[i]).0@) is Some
}

/// Parses a whole binding table, failing fast: the first chord that does
/// not parse fails the whole table, so a partially working keyboard setup
/// can never be registered.
pub fn parse_bindings(raw: &Vec<(String, Action)>) -> (r: Result<Vec<KeyBinding>, WmError>)
    ensures
        r is Ok <==> all_chords_parse(raw@),
        r is Err ==> r == Err::<Vec<KeyBinding>, WmError>(WmError::KeymapResolutionFailure),
        r matches Ok(v) ==> v@.len() == raw@.len() && (forall|i: int|
            0 <= i < raw@.len() ==> spec_parse_chord(raw@[i].0@) == Some(
                (((#[trigger] v@[i]).chord.mods), v@[i].chord.key@),
            ) && v@[i].action == raw@[i].1),
{
    let mut out: Vec<KeyBinding> = Vec::new();
    let mut k: usize = 0;
    while k < raw.len()
        invariant
            k <= raw@.len(),
            out@.len() == k,
            forall|i: int|
                0 <= i < out@.len() ==> spec_parse_chord((#[trigger] raw@[i]).0@) == Some(
                    ((out@[i].chord.mods), out@[i].chord.key@),
                ) && out@[i].action == raw@[i].1,
        decreases raw@.len() - k,
    {
        let c = match parse_chord(raw[k].0.as_str()) {
            Ok(c) => c,
            Err(_) => {
                proof {
                    assert(!all_chords_parse(raw@)) by {
                        assert(0 <= k < raw@.len() && spec_parse_chord(raw@[k as int].0@) is None);
                    }
                }
                return Err(WmError::KeymapResolutionFailure);
            },
        };
        let action = raw[k].1.clone();
        out.push(KeyBinding { chord: c, action });
        k = k + 1;
    }
    Ok(out)
}

/// The binding holds exactly this canonical chord.
pub open spec fn binding_matches(b: KeyBinding, mods: u8, key: Seq<char>) -> bool {
    b.chord.mods == mods && b.chord.key@ == key
}

/// The first binding holding the chord, if any.
pub open spec fn spec_find(bindings: Seq<KeyBinding>, mods: u8, key: Seq<char>) -> Option<int>
    decreases bindings.len(),
{
    if bindings.len() == 0 {
        None
    } else if binding_matches(bindings[0], mods, key) {
        Some(0int)
    } else {
        match spec_find(bindings.drop_first(), mods, key) {
            Some(i) => Some(i + 1),
            None => None,
        }
    }
}

/// With no match among the first `i` bindings, the search result is
/// decided at `i`: a match there is the answer, the end means none.
proof fn lemma_find_from(bindings: Seq<KeyBinding>, mods: u8, key: Seq<char>, i: int)
    requires
        0 <= i <= bindings.len(),
        forall|k: int| 0 <= k < i ==> !binding_matches(#[trigger] bindings[k], mods, key),
    ensures
        i == bindings.len() ==> spec_find(bindings, mods, key) is None,
        i < bindings.len() && binding_matches(bindings[i], mods, key) ==> spec_find(
            bindings,
            mods,
            key,
        ) == Some(i),
    decreases i,
{
    if i > 0 {
        let rest = bindings.drop_first();
        assert(forall|k: int| 0 <= k < i - 1 ==> !binding_matches(#[trigger] rest[k], mods, key));
        lemma_find_from(rest, mods, key, i - 1);
    }
}

/// The dispatcher's two states: waiting for input, or executing one bound
/// action to completion.
#[derive(Clone, Copy, PartialEq, Eq, Structural, Debug)]
pub enum DispatchPhase {
    Idle,
    Dispatching,
}

/// Maps recognized key presses to the bound action. The table is built
/// once, at startup, and immutable afterwards; the phase records that a
/// bound action runs synchronously to completion before the next press.
pub struct KeyDispatcher {
    pub bindings: Vec<KeyBinding>,
    pub phase: DispatchPhase,
}

impl KeyDispatcher {
    pub fn new(bindings: Vec<KeyBinding>) -> (r: KeyDispatcher)
        ensures
            r.bindings == bindings,
            r.phase == DispatchPhase::Idle,
    {
        KeyDispatcher { bindings, phase: DispatchPhase::Idle }
    }

    /// Takes a key press. A recognized chord moves the dispatcher to
    /// `Dispatching` and names the first binding holding it; an
    /// unrecognized chord is a no-op, not an error, and the dispatcher
    /// stays idle.
    pub fn begin(&mut self, mods: u8, key: &str) -> (r: Option<usize>)
        requires
            old(self).phase == DispatchPhase::Idle,
        ensures
            final(self).bindings == old(self).bindings,
            r matches Some(i) ==> spec_find(old(self).bindings@, mods, key@) == Some(i as int)
                && i < old(self).bindings@.len() && final(self).phase
                == DispatchPhase::Dispatching,
            r is None ==> spec_find(old(self).bindings@, mods, key@) is None && final(self).phase
                == DispatchPhase::Idle,
    {
        let mut i: usize = 0;
        while i < self.bindings.len()
            invariant
                i <= self.bindings@.len(),
                self == old(self),
                forall|k: int|
                    0 <= k < i ==> !binding_matches(#[trigger] self.bindings@[k], mods, key@),
            decreases self.bindings@.len() - i,
        {
            let b = &self.bindings[i];
            if b.chord.mods == mods && crate::text::str_eq(b.chord.key.as_str(), key) {
                proof {
                    lemma_find_from(self.bindings@, mods, key@, i as int);
                }
                self.phase = DispatchPhase::Dispatching;
                return Some(i);
            }
            i = i + 1;
        }
        proof {
            lemma_find_from(self.bindings@, mods, key@, i as int);
        }
        None
    }

    /// The binding at a position `begin` returned.
    pub fn binding_at(&self, i: usize) -> (r: &KeyBinding)
        requires
            i < self.bindings@.len(),
        ensures
            *r == self.bindings@[i as int],
    {
        &self.bindings[i]
    }

    /// The bound action has run to completion: back to waiting for input.
    pub fn complete(&mut self)
        requires
            old(self).phase == DispatchPhase::Dispatching,
        ensures
            final(self).bindings == old(self).bindings,
            final(self).phase == DispatchPhase::Idle,
    {
        self.phase = DispatchPhase::Idle;
    }
}

/// The configured binding table, as raw chord strings: focus and swap
/// movement, workspace and screen switching, layout cycling and resizing,
/// program launchers, an exit chord, and per-tag focus/move bindings for
/// the nine numbered workspaces.
pub fn raw_key_bindings() -> (r: Vec<(String, Action)>)
    ensures
        r@.len() == 38,
        r@[0].0@ == "M-j"@ && r@[0].1 == Action::FocusDown,
        r@[1].0@ == "M-k"@ && r@[1].1 == Action::FocusUp,
        r@[2].0@ == "M-S-j"@ && r@[2].1 == Action::SwapDown,
        r@[3].0@ == "M-S-k"@ && r@[3].1 == Action::SwapUp,
        r@[4].0@ == "M-S-q"@ && r@[4].1 == Action::KillFocused,
        r@[5].0@ == "M-Tab"@ && r@[5].1 == Action::ToggleTag,
        r@[6].0@ == "M-bracketright"@ && r@[6].1 == Action::NextScreen,
        r@[7].0@ == "M-bracketleft"@ && r@[7].1 == Action::PreviousScreen,
        r@[8].0@ == "M-grave"@ && r@[8].1 == Action::NextLayout,
        r@[9].0@ == "M-S-grave"@ && r@[9].1 == Action::PreviousLayout,
        r@[10].0@ == "M-S-Up"@ && r@[10].1 == Action::SendLayout(LayoutMessage::IncMain(1i32)),
        r@[11].0@ == "M-S-Down"@ && r@[11].1 == Action::SendLayout(LayoutMessage::IncMain(-1i32)),
        r@[12].0@ == "M-S-Right"@ && r@[12].1 == Action::SendLayout(LayoutMessage::ExpandMain),
        r@[13].0@ == "M-S-Left"@ && r@[13].1 == Action::SendLayout(LayoutMessage::ShrinkMain),
        r@[14].0@ == "M-e"@ && (r@[14].1 matches Action::Spawn(c) && c@ == "emacsclient --create-frame --alternate-editor nvim"@),
        r@[15].0@ == "M-d"@ && (r@[15].1 matches Action::Spawn(c) && c@ == "rofi -show combi"@),
        r@[16].0@ == "M-f"@ && (r@[16].1 matches Action::Spawn(c) && c@ == "firefox"@),
        r@[17].0@ == "f1"@ && (r@[17].1 matches Action::Spawn(c) && c@ == "firefox"@),
        r@[18].0@ == "M-S-Return"@ && (r@[18].1 matches Action::Spawn(c) && c@ == "alacritty"@),
        r@[19].0@ == "M-A-Escape"@ && r@[19].1 == Action::Exit,
        r@[20].0@ == "M-1"@ && (r@[20].1 matches Action::FocusTag(t) && t@ == "1"@),
        r@[21].0@ == "M-S-1"@ && (r@[21].1 matches Action::MoveFocusedToTag(t) && t@ == "1"@),
        r@[22].0@ == "M-2"@ && (r@[22].1 matches Action::FocusTag(t) && t@ == "2"@),
        r@[23].0@ == "M-S-2"@ && (r@[23].1 matches Action::MoveFocusedToTag(t) && t@ == "2"@),
        r@[24].0@ == "M-3"@ && (r@[24].1 matches Action::FocusTag(t) && t@ == "3"@),
        r@[25].0@ == "M-S-3"@ && (r@[25].1 matches Action::MoveFocusedToTag(t) && t@ == "3"@),
        r@[26].0@ == "M-4"@ && (r@[26].1 matches Action::FocusTag(t) && t@ == "4"@),
        r@[27].0@ == "M-S-4"@ && (r@[27].1 matches Action::MoveFocusedToTag(t) && t@ == "4"@),
        r@[28].0@ == "M-5"@ && (r@[28].1 matches Action::FocusTag(t) && t@ == "5"@),
        r@[29].0@ == "M-S-5"@ && (r@[29].1 matches Action::MoveFocusedToTag(t) && t@ == "5"@),
        r@[30].0@ == "M-6"@ && (r@[30].1 matches Action::FocusTag(t) && t@ == "6"@),
        r@[31].0@ == "M-S-6"@ && (r@[31].1 matches Action::MoveFocusedToTag(t) && t@ == "6"@),
        r@[32].0@ == "M-7"@ && (r@[32].1 matches Action::FocusTag(t) && t@ == "7"@),
        r@[33].0@ == "M-S-7"@ && (r@[33].1 matches Action::MoveFocusedToTag(t) && t@ == "7"@),
        r@[34].0@ == "M-8"@ && (r@[34].1 matches Action::FocusTag(t) && t@ == "8"@),
        r@[35].0@ == "M-S-8"@ && (r@[35].1 matches Action::MoveFocusedToTag(t) && t@ == "8"@),
        r@[36].0@ == "M-9"@ && (r@[36].1 matches Action::FocusTag(t) && t@ == "9"@),
        r@[37].0@ == "M-S-9"@ && (r@[37].1 matches Action::MoveFocusedToTag(t) && t@ == "9"@),
{
    let mut out: Vec<(String, Action)> = Vec::new();
    out.push(("M-j".to_owned(), Action::FocusDown));
    out.push(("M-k".to_owned(), Action::FocusUp));
    out.push(("M-S-j".to_owned(), Action::SwapDown));
    out.push(("M-S-k".to_owned(), Action::SwapUp));
    out.push(("M-S-q".to_owned(), Action::KillFocused));
    out.push(("M-Tab".to_owned(), Action::ToggleTag));
    out.push(("M-bracketright".to_owned(), Action::NextScreen));
    out.push(("M-bracketleft".to_owned(), Action::PreviousScreen));
    out.push(("M-grave".to_owned(), Action::NextLayout));
    out.push(("M-S-grave".to_owned(), Action::PreviousLayout));
    out.push(("M-S-Up".to_owned(), Action::SendLayout(LayoutMessage::IncMain(1i32))));
    out.push(("M-S-Down".to_owned(), Action::SendLayout(LayoutMessage::IncMain(-1i32))));
    out.push(("M-S-Right".to_owned(), Action::SendLayout(LayoutMessage::ExpandMain)));
    out.push(("M-S-Left".to_owned(), Action::SendLayout(LayoutMessage::ShrinkMain)));
    out.push(("M-e".to_owned(), Action::Spawn("emacsclient --create-frame --alternate-editor nvim".to_owned())));
    out.push(("M-d".to_owned(), Action::Spawn("rofi -show combi".to_owned())));
    out.push(("M-f".to_owned(), Action::Spawn("firefox".to_owned())));
    out.push(("f1".to_owned(), Action::Spawn("firefox".to_owned())));
    out.push(("M-S-Return".to_owned(), Action::Spawn("alacritty".to_owned())));
    out.push(("M-A-Escape".to_owned(), Action::Exit));
    out.push(("M-1".to_owned(), Action::FocusTag("1".to_owned())));
    out.push(("M-S-1".to_owned(), Action::MoveFocusedToTag("1".to_owned())));
    out.push(("M-2".to_owned(), Action::FocusTag("2".to_owned())));
    out.push(("M-S-2".to_owned(), Action::MoveFocusedToTag("2".to_owned())));
    out.push(("M-3".to_owned(), Action::FocusTag("3".to_owned())));
    out.push(("M-S-3".to_owned(), Action::MoveFocusedToTag("3".to_owned())));
    out.push(("M-4".to_owned(), Action::FocusTag("4".to_owned())));
    out.push(("M-S-4".to_owned(), Action::MoveFocusedToTag("4".to_owned())));
    out.push(("M-5".to_owned(), Action::FocusTag("5".to_owned())));
    out.push(("M-S-5".to_owned(), Action::MoveFocusedToTag("5".to_owned())));
    out.push(("M-6".to_owned(), Action::FocusTag("6".to_owned())));
    out.push(("M-S-6".to_owned(), Action::MoveFocusedToTag("6".to_owned())));
    out.push(("M-7".to_owned(), Action::FocusTag("7".to_owned())));
    out.push(("M-S-7".to_owned(), Action::MoveFocusedToTag("7".to_owned())));
    out.push(("M-8".to_owned(), Action::FocusTag("8".to_owned())));
    out.push(("M-S-8".to_owned(), Action::MoveFocusedToTag("8".to_owned())));
    out.push(("M-9".to_owned(), Action::FocusTag("9".to_owned())));
    out.push(("M-S-9".to_owned(), Action::MoveFocusedToTag("9".to_owned())));
    out
}

} // verus!
