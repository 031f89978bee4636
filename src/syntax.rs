use vstd::prelude::*;

use crate::fragment::{
    fragment_text, fragment_wf, lemma_token_round_trip, token_spec, Fragment, FragmentView,
    ParseError, DELIMITER,
};
use crate::path::{fragments_view, Path};

verus! {

/// The segments of `s` between delimiters, in order; text without a
/// delimiter is one segment, so the result is never empty.
pub open spec fn split(s: Seq<char>) -> Seq<Seq<char>>
    decreases s.len(),
{
    if s.len() == 0 {
        seq![Seq::<char>::empty()]
    } else {
        let r = split(s.drop_last());
        if s.last() == '/' {
            r.push(Seq::<char>::empty())
        } else {
            r.update(r.len() - 1, r.last().push(s.last()))
        }
    }
}

/// The segments joined with one delimiter between each two.
pub open spec fn join(ts: Seq<Seq<char>>) -> Seq<char>
    decreases ts.len(),
{
    if ts.len() == 0 {
        Seq::<char>::empty()
    } else if ts.len() == 1 {
        ts[0]
    } else {
        join(ts.drop_last()) + seq!['/'] + ts.last()
    }
}

/// Each segment read as a fragment; the first segment that cannot be read
/// decides the error.
pub open spec fn parse_segments(ts: Seq<Seq<char>>) -> Result<Seq<FragmentView>, ParseError>
    decreases ts.len(),
{
    if ts.len() == 0 {
        Ok(Seq::<FragmentView>::empty())
    } else {
        match parse_segments(ts.drop_last()) {
            Err(e) => Err(e),
            Ok(fs) => match token_spec(ts.last()) {
                Err(e) => Err(e),
                Ok(f) => Ok(fs.push(f)),
            },
        }
    }
}

/// What a whole pattern text reads as: empty text is the empty pattern.
pub open spec fn parse_spec(s: Seq<char>) -> Result<Seq<FragmentView>, ParseError> {
    if s.len() == 0 {
        Ok(Seq::<FragmentView>::empty())
    } else {
        parse_segments(split(s))
    }
}

/// The texts of the fragments of `p`.
pub open spec fn fragment_texts(p: Seq<FragmentView>) -> Seq<Seq<char>> {
    p.map_values(|f: FragmentView| fragment_text(f))
}

/// A pattern as text that reads back as it: its fragments joined with `/`.
pub open spec fn pattern_text(p: Seq<FragmentView>) -> Seq<char> {
    join(fragment_texts(p))
}

/// A pattern as it is shown in reports: each fragment preceded by `/`, so the
/// empty pattern shows as empty text.
pub open spec fn display_text(p: Seq<FragmentView>) -> Seq<char>
    decreases p.len(),
{
    if p.len() == 0 {
        Seq::<char>::empty()
    } else {
        display_text(p.drop_last()) + seq!['/'] + fragment_text(p.last())
    }
}

/// Every fragment of `p` is one that pattern text can read as.
pub open spec fn pattern_wf(p: Seq<FragmentView>) -> bool {
    forall|i: int| 0 <= i < p.len() ==> fragment_wf(#[trigger] p[i])
}

proof fn lemma_split_nonempty(s: Seq<char>)
    ensures
        split(s).len() >= 1,
    decreases s.len(),
{
    if s.len() > 0 {
        lemma_split_nonempty(s.drop_last());
    }
}

/// No segment holds a delimiter.
proof fn lemma_split_no_delimiter(s: Seq<char>)
    ensures
        forall|i: int| 0 <= i < split(s).len() ==> !(#[trigger] split(s)[i]).contains('/'),
    decreases s.len(),
{
    if s.len() > 0 {
        let r = split(s.drop_last());
        lemma_split_no_delimiter(s.drop_last());
        lemma_split_nonempty(s.drop_last());
        if s.last() != '/' {
            let t = r.last().push(s.last());
            assert(!r[r.len() - 1].contains('/'));
            if t.contains('/') {
                let k = choose|k: int| 0 <= k < t.len() && #[trigger] t[k] == '/';
                assert(r.last()[k] == '/');
            }
        }
        assert forall|i: int| 0 <= i < split(s).len() implies !(#[trigger] split(s)[i]).contains('/') by {
            if i < r.len() - 1 {
                assert(split(s)[i] == r[i]);
            } else if s.last() == '/' && i == r.len() - 1 {
                assert(split(s)[i] == r[i]);
            }
        }
    }
}

/// A segment without a delimiter reads as a well-formed fragment, if at all.
proof fn lemma_token_wf(t: Seq<char>)
    requires
        !t.contains('/'),
        token_spec(t) is Ok,
    ensures
        fragment_wf(token_spec(t)->Ok_0),
{
}

/// Text without a delimiter extends the last segment.
proof fn lemma_split_append(x: Seq<char>, y: Seq<char>)
    requires
        !y.contains('/'),
    ensures
        split(x + y) == split(x).update(split(x).len() - 1, split(x).last() + y),
    decreases y.len(),
{
    lemma_split_nonempty(x);
    if y.len() == 0 {
        assert(x + y =~= x);
        assert(split(x).last() + y =~= split(x).last());
        assert(split(x).update(split(x).len() - 1, split(x).last()) =~= split(x));
    } else {
        let y0 = y.drop_last();
        let c = y.last();
        if y0.contains('/') {
            let k = choose|k: int| 0 <= k < y0.len() && #[trigger] y0[k] == '/';
            assert(y[k] == '/');
        }
        assert(y[y.len() - 1] == c);
        lemma_split_append(x, y0);
        assert((x + y).drop_last() =~= x + y0);
        assert((x + y).last() == c);
        lemma_split_nonempty(x + y0);
        assert(c != '/');
        let sx = split(x);
        let r = split(x + y0);
        assert(r == sx.update(sx.len() - 1, sx.last() + y0));
        assert(r.len() == sx.len());
        assert(r.last() == sx.last() + y0);
        assert(r.last().push(c) =~= sx.last() + y);
        assert(split(x + y) == r.update(r.len() - 1, r.last().push(c)));
        assert(r.update(r.len() - 1, sx.last() + y) =~= sx.update(sx.len() - 1, sx.last() + y));
    }
}

/// A delimiter at the end starts a new, empty segment.
proof fn lemma_split_delimiter(x: Seq<char>)
    ensures
        split(x.push('/')) == split(x).push(Seq::<char>::empty()),
{
    assert(x.push('/').drop_last() =~= x);
}

/// Splitting joined segments gives them back.
proof fn lemma_split_join(ts: Seq<Seq<char>>)
    requires
        ts.len() >= 1,
        forall|i: int| 0 <= i < ts.len() ==> !(#[trigger] ts[i]).contains('/'),
    ensures
        split(join(ts)) == ts,
    decreases ts.len(),
{
    if ts.len() == 1 {
        lemma_split_append(Seq::<char>::empty(), ts[0]);
        assert(Seq::<char>::empty() + ts[0] =~= ts[0]);
        assert(split(ts[0]) =~= ts);
    } else {
        let init = ts.drop_last();
        assert forall|i: int| 0 <= i < init.len() implies !(#[trigger] init[i]).contains('/') by {
            assert(init[i] == ts[i]);
        }
        lemma_split_join(init);
        let x = join(init).push('/');
        assert(join(ts) =~= x + ts.last());
        lemma_split_delimiter(join(init));
        lemma_split_append(x, ts.last());
        assert(Seq::<char>::empty() + ts.last() =~= ts.last());
        assert(split(join(ts)) =~= ts);
    }
}

/// Reading the texts of well-formed fragments gives the fragments back.
proof fn lemma_parse_fragment_texts(p: Seq<FragmentView>)
    requires
        pattern_wf(p),
    ensures
        parse_segments(fragment_texts(p)) == Ok::<Seq<FragmentView>, ParseError>(p),
    decreases p.len(),
{
    if p.len() > 0 {
        let init = p.drop_last();
        assert(pattern_wf(init)) by {
            assert forall|i: int| 0 <= i < init.len() implies fragment_wf(#[trigger] init[i]) by {
                assert(init[i] == p[i]);
            }
        }
        lemma_parse_fragment_texts(init);
        assert(fragment_texts(p).drop_last() =~= fragment_texts(init));
        assert(fragment_wf(p[p.len() - 1]));
        lemma_token_round_trip(p.last());
        let ts = fragment_texts(p);
        assert(ts.last() == fragment_text(p.last()));
        assert(token_spec(ts.last()) == Ok::<FragmentView, ParseError>(p.last()));
        assert(ts.len() == p.len());
        assert(init.push(p.last()) =~= p);
    } else {
        assert(fragment_texts(p).len() == 0);
        assert(p =~= Seq::<FragmentView>::empty());
    }
}

/// A segment that cannot be read decides the result, whatever follows it.
proof fn lemma_parse_segments_error(ts: Seq<Seq<char>>, k: int)
    requires
        0 <= k <= ts.len(),
        parse_segments(ts.take(k)) is Err,
    ensures
        parse_segments(ts) == parse_segments(ts.take(k)),
    decreases ts.len(),
{
    if k == ts.len() {
        assert(ts.take(k) =~= ts);
    } else {
        assert(ts.drop_last().take(k) =~= ts.take(k));
        lemma_parse_segments_error(ts.drop_last(), k);
    }
}

/// Rendering a well-formed pattern as text and reading that text back gives
/// the same pattern.
pub proof fn lemma_text_round_trip(p: Seq<FragmentView>)
    requires
        pattern_wf(p),
    ensures
        parse_spec(pattern_text(p)) == Ok::<Seq<FragmentView>, ParseError>(p),
{
    let ts = fragment_texts(p);
    lemma_parse_fragment_texts(p);
    if p.len() == 0 {
        assert(ts.len() == 0);
        assert(p =~= Seq::<FragmentView>::empty());
    } else {
        assert forall|i: int| 0 <= i < ts.len() implies !(#[trigger] ts[i]).contains('/') by {
            assert(fragment_wf(p[i]));
            lemma_token_round_trip(p[i]);
        }
        lemma_split_join(ts);
        assert(fragment_wf(p[p.len() - 1]));
        lemma_token_round_trip(p.last());
        assert(pattern_text(p).len() > 0);
    }
}

/// Segments without a delimiter read as well-formed fragments.
proof fn lemma_parse_segments_wf(ts: Seq<Seq<char>>)
    requires
        forall|i: int| 0 <= i < ts.len() ==> !(#[trigger] ts[i]).contains('/'),
        parse_segments(ts) is Ok,
    ensures
        pattern_wf(parse_segments(ts)->Ok_0),
    decreases ts.len(),
{
    if ts.len() > 0 {
        let init = ts.drop_last();
        assert forall|i: int| 0 <= i < init.len() implies !(#[trigger] init[i]).contains('/') by {
            assert(init[i] == ts[i]);
        }
        lemma_parse_segments_wf(init);
        assert(!ts[ts.len() - 1].contains('/'));
        lemma_token_wf(ts.last());
        let fs = parse_segments(init)->Ok_0;
        let f = token_spec(ts.last())->Ok_0;
        assert forall|i: int| 0 <= i < fs.push(f).len() implies fragment_wf(#[trigger] fs.push(f)[i]) by {
            if i < fs.len() {
                assert(fs.push(f)[i] == fs[i]);
            }
        }
    }
}

/// Every pattern that text reads as is well-formed.
pub proof fn lemma_parsed_wf(s: Seq<char>)
    requires
        parse_spec(s) is Ok,
    ensures
        pattern_wf(parse_spec(s)->Ok_0),
{
    if s.len() > 0 {
        lemma_split_no_delimiter(s);
        lemma_parse_segments_wf(split(s));
    }
}

/// Text that reads as a pattern, rendered back with `/` between fragments,
/// reads as the same pattern.
pub proof fn lemma_parse_render_round_trip(s: Seq<char>)
    requires
        parse_spec(s) is Ok,
    ensures
        parse_spec(pattern_text(parse_spec(s)->Ok_0)) == parse_spec(s),
{
    lemma_parsed_wf(s);
    lemma_text_round_trip(parse_spec(s)->Ok_0);
}

/// The report form of a non-empty pattern is its text with a leading `/`.
pub proof fn lemma_display_is_rooted_text(p: Seq<FragmentView>)
    ensures
        p.len() == 0 ==> display_text(p) == Seq::<char>::empty(),
        p.len() > 0 ==> display_text(p) == seq!['/'] + pattern_text(p),
    decreases p.len(),
{
    if p.len() > 1 {
        lemma_display_is_rooted_text(p.drop_last());
        assert(fragment_texts(p).drop_last() =~= fragment_texts(p.drop_last()));
        assert(display_text(p) =~= seq!['/'] + pattern_text(p));
    } else if p.len() == 1 {
        assert(p.drop_last() =~= Seq::<FragmentView>::empty());
        assert(display_text(p.drop_last()) == Seq::<char>::empty());
        assert(fragment_texts(p).len() == 1);
        assert(pattern_text(p) == fragment_texts(p)[0]);
        assert(display_text(p) =~= seq!['/'] + pattern_text(p));
    }
}

/// The segments of `s` between delimiters, as slices of it.
fn split_segments<'a>(s: &'a str) -> (r: Vec<&'a str>)
    ensures
        r@.map_values(|t: &str| t@) == split(s@),
{
    let n = s.unicode_len();
    let mut segments: Vec<&'a str> = Vec::new();
    let mut start: usize = 0;
    let mut i: usize = 0;
    proof {
        assert(s@.take(0) =~= Seq::<char>::empty());
        assert(segments@.map_values(|t: &str| t@).push(s@.subrange(0, 0)) =~= seq![
            Seq::<char>::empty(),
        ]);
    }
    while i < n
        invariant
            n == s@.len(),
            start <= i <= n,
            split(s@.take(i as int)) == segments@.map_values(|t: &str| t@).push(
                s@.subrange(start as int, i as int),
            ),
        decreases n - i,
    {
        let c = s.get_char(i);
        let ghost before = segments@.map_values(|t: &str| t@);
        proof {
            assert(s@.take(i + 1).drop_last() =~= s@.take(i as int));
            assert(s@.take(i + 1).last() == c);
        }
        if c == DELIMITER {
            let t = s.substring_char(start, i);
            segments.push(t);
            start = i + 1;
            proof {
                assert(segments@.map_values(|t: &str| t@) =~= before.push(t@));
                assert(s@.subrange(start as int, i + 1) =~= Seq::<char>::empty());
            }
        } else {
            proof {
                assert(s@.subrange(start as int, i as int).push(c) =~= s@.subrange(
                    start as int,
                    i + 1,
                ));
                assert(before.push(s@.subrange(start as int, i as int)).update(
                    before.len() as int,
                    s@.subrange(start as int, i + 1),
                ) =~= before.push(s@.subrange(start as int, i + 1)));
            }
        }
        i = i + 1;
    }
    let ghost before = segments@.map_values(|t: &str| t@);
    let t = s.substring_char(start, n);
    segments.push(t);
    proof {
        assert(s@.take(n as int) =~= s@);
        assert(segments@.map_values(|t: &str| t@) =~= before.push(t@));
    }
    segments
}

impl Path {
    /// Reads pattern text: segments separated by `/`, each `*` (wildcard),
    /// `**` (glob) or a literal without `*`. Empty text is the empty pattern.
    pub fn parse(s: &str) -> (r: Result<Path, ParseError>)
        ensures
            match r {
                Ok(p) => parse_spec(s@) == Ok::<Seq<FragmentView>, ParseError>(p@),
                Err(e) => parse_spec(s@) == Err::<Seq<FragmentView>, ParseError>(e),
            },
            r is Ok ==> pattern_wf(r->Ok_0@),
    {
        if s.unicode_len() == 0 {
            return Ok(Path::new());
        }
        let segments = split_segments(s);
        let ghost ts = segments@.map_values(|t: &str| t@);
        proof {
            lemma_split_no_delimiter(s@);
        }
        let mut fragments: Vec<Fragment> = Vec::new();
        let mut k: usize = 0;
        assert(ts.take(0) =~= Seq::<Seq<char>>::empty());
        assert(fragments_view(fragments@) =~= Seq::<FragmentView>::empty());
        while k < segments.len()
            invariant
                ts == segments@.map_values(|t: &str| t@),
                ts == split(s@),
                s@.len() > 0,
                k <= segments@.len(),
                parse_segments(ts.take(k as int)) == Ok::<Seq<FragmentView>, ParseError>(
                    fragments_view(fragments@),
                ),
                forall|i: int| 0 <= i < ts.len() ==> !(#[trigger] ts[i]).contains('/'),
                pattern_wf(fragments_view(fragments@)),
            decreases segments@.len() - k,
        {
            proof {
                assert(ts.take(k + 1).drop_last() =~= ts.take(k as int));
                assert(ts.take(k + 1).last() == segments@[k as int]@);
            }
            match Fragment::parse(segments[k]) {
                Ok(f) => {
                    let ghost before = fragments_view(fragments@);
                    proof {
                        assert(ts[k as int] == segments@[k as int]@);
                        lemma_token_wf(ts[k as int]);
                    }
                    fragments.push(f);
                    assert(fragments_view(fragments@) =~= before.push(f@));
                    assert(pattern_wf(fragments_view(fragments@))) by {
                        assert forall|i: int| 0 <= i < fragments_view(fragments@).len() implies fragment_wf(
                            #[trigger] fragments_view(fragments@)[i],
                        ) by {
                            if i < before.len() {
                                assert(fragments_view(fragments@)[i] == before[i]);
                            }
                        }
                    }
                },
                Err(e) => {
                    proof {
                        assert(parse_segments(ts.take(k + 1)) == Err::<Seq<FragmentView>, ParseError>(e));
                        lemma_parse_segments_error(ts, k + 1);
                    }
                    return Err(e);
                },
            }
            k = k + 1;
        }
        assert(ts.take(k as int) =~= ts);
        Ok(Path(fragments))
    }

    /// The pattern as text that [`Path::parse`] reads back: its fragments
    /// joined with `/`.
    pub fn to_text(&self) -> (r: String)
        ensures
            r@ == pattern_text(self@),
    {
        let ghost ts = fragment_texts(self@);
        let mut r = String::new();
        let mut k: usize = 0;
        while k < self.0.len()
            invariant
                ts == fragment_texts(self@),
                k <= self.0@.len(),
                r@ == join(ts.take(k as int)),
            decreases self.0@.len() - k,
        {
            let t = self.0[k].render();
            proof {
                assert(ts.take(k + 1).drop_last() =~= ts.take(k as int));
                assert(ts.take(k + 1).last() == t@);
                if k == 0 {
                    assert(ts.take(0) =~= Seq::<Seq<char>>::empty());
                }
            }
            if k > 0 {
                r.append("/");
                proof {
                    reveal_strlit("/");
                }
            }
            r.append(t.as_str());
            proof {
                if k == 0 {
                    assert(r@ =~= ts.take(1)[0]);
                } else {
                    assert(r@ =~= join(ts.take(k as int)) + seq!['/'] + t@);
                }
            }
            k = k + 1;
        }
        assert(ts.take(k as int) =~= ts);
        r
    }

    /// The pattern as shown in reports: each fragment preceded by `/`; the
    /// empty pattern shows as empty text.
    pub fn render(&self) -> (r: String)
        ensures
            r@ == display_text(self@),
    {
        let mut r = String::new();
        let mut k: usize = 0;
        while k < self.0.len()
            invariant
                k <= self.0@.len(),
                r@ == display_text(self@.take(k as int)),
            decreases self.0@.len() - k,
        {
            let t = self.0[k].render();
            proof {
                assert(self@.take(k + 1).drop_last() =~= self@.take(k as int));
                assert(self@.take(k + 1).last() == self.0@[k as int]@);
                if k == 0 {
                    assert(self@.take(0) =~= Seq::<FragmentView>::empty());
                }
            }
            r.append("/");
            proof {
                reveal_strlit("/");
            }
            r.append(t.as_str());
            assert(r@ =~= display_text(self@.take(k as int)) + seq!['/'] + t@);
            k = k + 1;
        }
        assert(self@.take(k as int) =~= self@);
        r
    }
}

impl std::str::FromStr for Path {
    type Err = ParseError;

    fn from_str(s: &str) -> (r: Result<Path, ParseError>)
        ensures
            match r {
                Ok(p) => parse_spec(s@) == Ok::<Seq<FragmentView>, ParseError>(p@),
                Err(e) => parse_spec(s@) == Err::<Seq<FragmentView>, ParseError>(e),
            },
            r is Ok ==> pattern_wf(r->Ok_0@),
    {
        Path::parse(s)
    }
}

impl std::str::FromStr for Fragment {
    type Err = ParseError;

    fn from_str(s: &str) -> (r: Result<Fragment, ParseError>)
        ensures
            match r {
                Ok(f) => token_spec(s@) == Ok::<FragmentView, ParseError>(f@),
                Err(e) => token_spec(s@) == Err::<FragmentView, ParseError>(e),
            },
    {
        Fragment::parse(s)
    }
}

} // verus!
