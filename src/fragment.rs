use vstd::prelude::*;

verus! {

/// Why a piece of pattern text could not be read as a pattern.
#[derive(Debug, Clone, Copy, PartialEq, Eq, Structural)]
pub enum ParseError {
    /// A segment between delimiters (or before the first, or after the last) is empty.
    EmptyFragment,
    /// A segment holds `*` but is neither exactly `*` nor exactly `**`.
    InvalidWildcardUsage,
}

/// The mathematical value of a [`Fragment`]: a literal's text as characters.
pub ghost enum FragmentView {
    Literal(Seq<char>),
    Wildcard,
    Glob,
}

/// One level of a path pattern.
#[derive(Debug, Clone)]
pub enum Fragment {
    /// Matches exactly this text at this level.
    Literal(String),
    /// Matches exactly one arbitrary level.
    Wildcard,
    /// Matches zero or more arbitrary levels.
    Glob,
}

impl View for Fragment {
    type V = FragmentView;

    open spec fn view(&self) -> FragmentView {
        match self {
            Fragment::Literal(s) => FragmentView::Literal(s@),
            Fragment::Wildcard => FragmentView::Wildcard,
            Fragment::Glob => FragmentView::Glob,
        }
    }
}

impl PartialEq for Fragment {
    fn eq(&self, other: &Fragment) -> (r: bool)
        ensures
            r == (self@ == other@),
    {
        match (self, other) {
            (Fragment::Literal(a), Fragment::Literal(b)) => a.eq(b),
            (Fragment::Wildcard, Fragment::Wildcard) => true,
            (Fragment::Glob, Fragment::Glob) => true,
            _ => false,
        }
    }
}

impl vstd::std_specs::cmp::PartialEqSpecImpl for Fragment {
    open spec fn obeys_eq_spec() -> bool {
        true
    }

    open spec fn eq_spec(&self, other: &Fragment) -> bool {
        self@ == other@
    }
}

impl Eq for Fragment {
}

/// The character that separates the levels of a pattern.
pub const DELIMITER: char = '/';

/// The character reserved for wildcards and globs.
pub const WILDCARD_CHAR: char = '*';

/// The text that reads as a [`Fragment::Wildcard`].
pub open spec fn wildcard_text() -> Seq<char> {
    seq!['*']
}

/// The text that reads as a [`Fragment::Glob`].
pub open spec fn glob_text() -> Seq<char> {
    seq!['*', '*']
}

/// What one segment of pattern text reads as.
pub open spec fn token_spec(t: Seq<char>) -> Result<FragmentView, ParseError> {
    if t.len() == 0 {
        Err(ParseError::EmptyFragment)
    } else if t == wildcard_text() {
        Ok(FragmentView::Wildcard)
    } else if t == glob_text() {
        Ok(FragmentView::Glob)
    } else if t.contains('*') {
        Err(ParseError::InvalidWildcardUsage)
    } else {
        Ok(FragmentView::Literal(t))
    }
}

/// The text of one fragment, as it stands in a pattern.
pub open spec fn fragment_text(f: FragmentView) -> Seq<char> {
    match f {
        FragmentView::Literal(t) => t,
        FragmentView::Wildcard => wildcard_text(),
        FragmentView::Glob => glob_text(),
    }
}

/// A fragment that some pattern text reads as: a literal is non-empty and
/// holds neither the delimiter nor the wildcard character.
pub open spec fn fragment_wf(f: FragmentView) -> bool {
    match f {
        FragmentView::Literal(t) => t.len() > 0 && !t.contains('*') && !t.contains('/'),
        _ => true,
    }
}

/// Reading a fragment's text gives the fragment back.
pub proof fn lemma_token_round_trip(f: FragmentView)
    requires
        fragment_wf(f),
    ensures
        token_spec(fragment_text(f)) == Ok::<FragmentView, ParseError>(f),
        !fragment_text(f).contains('/'),
        fragment_text(f).len() > 0,
{
    match f {
        FragmentView::Literal(t) => {
            if t == wildcard_text() {
                assert(t[0] == '*');
            }
            if t == glob_text() {
                assert(t[0] == '*');
            }
        },
        FragmentView::Wildcard => {
            if wildcard_text().contains('/') {
                let i = choose|i: int| 0 <= i < wildcard_text().len() && wildcard_text()[i] == '/';
                assert(wildcard_text()[i] == '*');
            }
        },
        FragmentView::Glob => {
            if glob_text().contains('/') {
                let i = choose|i: int| 0 <= i < glob_text().len() && glob_text()[i] == '/';
                assert(glob_text()[i] == '*');
            }
        },
    }
}

impl Fragment {
    /// Reads one segment of pattern text (one that holds no delimiter).
    pub fn parse(s: &str) -> (r: Result<Fragment, ParseError>)
        ensures
            match r {
                Ok(f) => token_spec(s@) == Ok::<FragmentView, ParseError>(f@),
                Err(e) => token_spec(s@) == Err::<FragmentView, ParseError>(e),
            },
    {
        let n = s.unicode_len();
        if n == 0 {
            return Err(ParseError::EmptyFragment);
        }
        let mut i: usize = 0;
        let mut has_star = false;
        let mut all_stars = true;
        while i < n
            invariant
                n == s@.len(),
                i <= n,
                has_star == s@.take(i as int).contains('*'),
                all_stars == (forall|k: int| 0 <= k < i ==> s@[k] == '*'),
            decreases n - i,
        {
            let c = s.get_char(i);
            if c == WILDCARD_CHAR {
                has_star = true;
            } else {
                all_stars = false;
            }
            proof {
                let before = s@.take(i as int);
                let after = s@.take(i + 1);
                assert(after =~= before.push(c));
                if !before.contains('*') && c != '*' {
                    if after.contains('*') {
                        let k = choose|k: int| 0 <= k < after.len() && #[trigger] after[k] == '*';
                        assert(before[k] == after[k]);
                    }
                }
                if c == '*' {
                    assert(after[i as int] == '*');
                }
                if before.contains('*') {
                    let k = choose|k: int| 0 <= k < before.len() && #[trigger] before[k] == '*';
                    assert(after[k] == '*');
                }
            }
            i = i + 1;
        }
        assert(s@.take(n as int) =~= s@);
        if !has_star {
            assert(s@[0] != '*');
            Ok(Fragment::Literal(String::from_str(s)))
        } else if all_stars && n == 1 {
            assert(s@ =~= wildcard_text());
            Ok(Fragment::Wildcard)
        } else if all_stars && n == 2 {
            assert(s@ =~= glob_text());
            Ok(Fragment::Glob)
        } else {
            proof {
                if s@ == wildcard_text() || s@ == glob_text() {
                    assert forall|k: int| 0 <= k < n implies s@[k] == '*' by {}
                }
            }
            Err(ParseError::InvalidWildcardUsage)
        }
    }

    /// The text of this fragment: a literal's text, `*` or `**`.
    pub fn render(&self) -> (r: String)
        ensures
            r@ == fragment_text(self@),
    {
        match self {
            Fragment::Literal(s) => s.clone(),
            Fragment::Wildcard => {
                let r = String::from_str("*");
                proof {
                    reveal_strlit("*");
                }
                r
            },
            Fragment::Glob => {
                let r = String::from_str("**");
                proof {
                    reveal_strlit("**");
                }
                r
            },
        }
    }

    /// Whether this fragment is a glob.
    pub fn is_glob(&self) -> (r: bool)
        ensures
            r == (self@ == FragmentView::Glob),
    {
        matches!(self, Fragment::Glob)
    }
}

} // verus!
