//! Text filters that can be applied before/after tokenization.
//! No filters are enabled by default — users opt in.
use vstd::prelude::*;

verus! {

/// A filter that transforms text before tokenization or token IDs after.
///
/// Each filter describes what it does by `spec_apply` and `spec_name`;
/// `apply` and `name` must agree with them.
pub trait PreTokenFilter: Send + Sync {
    /// The filter's name, as text.
    spec fn spec_name(&self) -> Seq<char>;

    /// The bytes that the filter produces from `input`.
    spec fn spec_apply(&self, input: Seq<u8>) -> Seq<u8>;

    fn name(&self) -> (name: &str)
        ensures
            name@ == self.spec_name(),
    ;

    fn apply(&self, input: &[u8]) -> (out: Vec<u8>)
        ensures
            out@ == self.spec_apply(input@),
    ;
}

/// The single-byte whitespace that `NormalizeWhitespace` replaces: space, tab,
/// carriage return, vertical tab and form feed. Newline is kept, so lines stay apart.
pub open spec fn is_ascii_blank(b: u8) -> bool {
    b == 0x20 || b == 0x09 || b == 0x0d || b == 0x0b || b == 0x0c
}

/// The length in bytes of the whitespace character that `s` starts with, 0 if
/// it starts with none. Whitespace is the single-byte blanks above and, in
/// UTF-8, the other Unicode whitespace characters: U+0085, U+00A0, U+1680,
/// U+2000..U+200A, U+2028, U+2029, U+202F, U+205F and U+3000.
pub open spec fn blank_len(s: Seq<u8>) -> nat {
    if s.len() >= 1 && is_ascii_blank(s[0]) {
        1
    } else if s.len() >= 2 && s[0] == 0xc2 && (s[1] == 0x85 || s[1] == 0xa0) {
        2
    } else if s.len() >= 3 && s[0] == 0xe1 && s[1] == 0x9a && s[2] == 0x80 {
        3
    } else if s.len() >= 3 && s[0] == 0xe2 && s[1] == 0x80 && ((0x80 <= s[2] && s[2] <= 0x8a)
        || s[2] == 0xa8 || s[2] == 0xa9 || s[2] == 0xaf) {
        3
    } else if s.len() >= 3 && s[0] == 0xe2 && s[1] == 0x81 && s[2] == 0x9f {
        3
    } else if s.len() >= 3 && s[0] == 0xe3 && s[1] == 0x80 && s[2] == 0x80 {
        3
    } else {
        0
    }
}

/// `s` normalized, scanning left to right: each whitespace character becomes a
/// space, except one that directly follows whitespace, which is dropped, so a
/// run of whitespace becomes a single space; every other byte is kept.
/// `after_blank` tells whether whitespace came just before `s`.
pub open spec fn normalize_from(s: Seq<u8>, after_blank: bool) -> Seq<u8>
    decreases s.len(),
{
    if s.len() == 0 {
        Seq::empty()
    } else if blank_len(s) > 0 {
        let rest = normalize_from(s.skip(blank_len(s) as int), true);
        if after_blank {
            rest
        } else {
            seq![0x20u8] + rest
        }
    } else {
        seq![s[0]] + normalize_from(s.skip(1), false)
    }
}

/// What `NormalizeWhitespace` makes of `s`: every run of whitespace collapsed
/// to a single ASCII space.
pub open spec fn collapse_blanks(s: Seq<u8>) -> Seq<u8> {
    normalize_from(s, false)
}

/// Normalizing never lengthens the bytes, and never leaves two spaces side by
/// side; after whitespace it never starts with a space.
pub proof fn lemma_normalize_shape(s: Seq<u8>, after_blank: bool)
    ensures
        normalize_from(s, after_blank).len() <= s.len(),
        forall|k: int|
            0 <= k < normalize_from(s, after_blank).len() - 1 && #[trigger] normalize_from(s, after_blank)[k]
                == 0x20 ==> normalize_from(s, after_blank)[k + 1] != 0x20,
        after_blank && normalize_from(s, after_blank).len() > 0 ==> normalize_from(s, after_blank)[0] != 0x20,
    decreases s.len(),
{
    if s.len() > 0 {
        let out = normalize_from(s, after_blank);
        if blank_len(s) > 0 {
            let rest = s.skip(blank_len(s) as int);
            lemma_normalize_shape(rest, true);
            let r = normalize_from(rest, true);
            if !after_blank {
                assert(out == seq![0x20u8] + r);
                assert forall|k: int| 0 <= k < out.len() - 1 && #[trigger] out[k] == 0x20 implies out[k + 1] != 0x20 by {
                    if k > 0 {
                        assert(out[k] == r[k - 1]);
                        assert(out[k + 1] == r[k]);
                    } else {
                        assert(out[1] == r[0]);
                    }
                }
            }
        } else {
            let rest = s.skip(1);
            lemma_normalize_shape(rest, false);
            let r = normalize_from(rest, false);
            assert(out == seq![s[0]] + r);
            assert(s[0] != 0x20);
            assert forall|k: int| 0 <= k < out.len() - 1 && #[trigger] out[k] == 0x20 implies out[k + 1] != 0x20 by {
                if k > 0 {
                    assert(out[k] == r[k - 1]);
                    assert(out[k + 1] == r[k]);
                }
            }
        }
    }
}

/// How a normalization after no whitespace begins: with the first byte when
/// that starts no whitespace, with a space when it does.
proof fn lemma_normalize_head(t: Seq<u8>)
    requires
        t.len() > 0,
    ensures
        normalize_from(t, false).len() > 0,
        blank_len(t) == 0 ==> normalize_from(t, false)[0] == t[0],
        blank_len(t) > 0 ==> normalize_from(t, false)[0] == 0x20,
        blank_len(t) == 0 ==> normalize_from(t, false) == seq![t[0]] + normalize_from(t.skip(1), false),
{
}

/// Normalizing twice gives what normalizing once does.
pub proof fn lemma_normalize_idempotent(s: Seq<u8>, after_blank: bool)
    ensures
        normalize_from(normalize_from(s, after_blank), after_blank) == normalize_from(s, after_blank),
    decreases s.len(),
{
    let out = normalize_from(s, after_blank);
    if s.len() > 0 {
        if blank_len(s) > 0 {
            let rest = s.skip(blank_len(s) as int);
            lemma_normalize_idempotent(rest, true);
            let r = normalize_from(rest, true);
            if !after_blank {
                assert(out == seq![0x20u8] + r);
                assert(blank_len(out) == 1);
                assert(out.skip(1) =~= r);
            }
        } else {
            let t = s.skip(1);
            lemma_normalize_idempotent(t, false);
            let r = normalize_from(t, false);
            assert(out == seq![s[0]] + r);
            // the output starts with no whitespace either
            if t.len() > 0 {
                lemma_normalize_head(t);
                if blank_len(t) == 0 {
                    assert(r[0] == s[1]);
                    if t.len() > 1 {
                        let u = t.skip(1);
                        lemma_normalize_head(u);
                        assert(u[0] == s[2]);
                        if blank_len(u) == 0 {
                            assert(r == seq![t[0]] + normalize_from(u, false));
                            assert(r[1] == s[2]);
                        } else {
                            assert(r[1] == 0x20);
                        }
                    }
                } else {
                    assert(r[0] == 0x20);
                }
            }
            assert(blank_len(out) == 0);
            assert(out.skip(1) =~= r);
        }
    }
}

/// ASCII `A`..`Z` lowered to `a`..`z`; every other byte unchanged.
pub open spec fn lower_byte(b: u8) -> u8 {
    if 0x41 <= b && b <= 0x5a {
        (b + 32) as u8
    } else {
        b
    }
}

/// The bytes that `StripNonPrintable` keeps: printable ASCII (0x20..0x7E),
/// newline and tab.
pub open spec fn is_kept(b: u8) -> bool {
    (0x20 <= b && b <= 0x7e) || b == 0x0a || b == 0x09
}

/// Copy a byte slice into a new vector.
pub fn copy_bytes(input: &[u8]) -> (out: Vec<u8>)
    ensures
        out@ == input@,
{
    let mut out: Vec<u8> = Vec::with_capacity(input.len());
    let mut i: usize = 0;
    while i < input.len()
        invariant
            i <= input@.len(),
            out@ == input@.take(i as int),
        decreases input@.len() - i,
    {
        out.push(input[i]);
        i = i + 1;
    }
    assert(input@.take(i as int) =~= input@);
    out
}

/// Built-in filter: normalize Unicode whitespace to ASCII spaces (each run of
/// whitespace other than newline becomes one space)
pub struct NormalizeWhitespace;

impl PreTokenFilter for NormalizeWhitespace {
    open spec fn spec_name(&self) -> Seq<char> {
        "normalize_whitespace"@
    }

    open spec fn spec_apply(&self, input: Seq<u8>) -> Seq<u8> {
        collapse_blanks(input)
    }

    fn name(&self) -> (name: &str) {
        "normalize_whitespace"
    }

    fn apply(&self, input: &[u8]) -> (out: Vec<u8>) {
        let mut out: Vec<u8> = Vec::with_capacity(input.len());
        let mut prev_space = false;
        let mut i: usize = 0;
        proof {
            assert(input@.skip(0) =~= input@);
            assert(out@ + normalize_from(input@.skip(0), false) =~= collapse_blanks(input@));
        }
        while i < input.len()
            invariant
                i <= input@.len(),
                out@ + normalize_from(input@.skip(i as int), prev_space) == collapse_blanks(input@),
            decreases input@.len() - i,
        {
            let ghost rest = input@.skip(i as int);
            let ghost before = out@;
            let k = blank_len_at(input, i);
            if k > 0 {
                if !prev_space {
                    out.push(0x20u8);
                    prev_space = true;
                }
                proof {
                    assert(rest.skip(k as int) =~= input@.skip(i + k));
                    if before == out@ {
                        assert(before + normalize_from(rest, true) == before + normalize_from(input@.skip(i + k), true));
                    } else {
                        assert(before + (seq![0x20u8] + normalize_from(input@.skip(i + k), true)) =~= out@
                            + normalize_from(input@.skip(i + k), true));
                    }
                }
                i = i + k;
            } else {
                let b = input[i];
                out.push(b);
                prev_space = false;
                proof {
                    assert(rest.skip(1) =~= input@.skip(i + 1));
                    assert(rest[0] == b);
                    assert(before + (seq![b] + normalize_from(input@.skip(i + 1), false)) =~= out@
                        + normalize_from(input@.skip(i + 1), false));
                }
                i = i + 1;
            }
        }
        proof {
            assert(normalize_from(input@.skip(i as int), prev_space) =~= Seq::<u8>::empty());
            assert(out@ + Seq::<u8>::empty() =~= out@);
        }
        out
    }
}

/// The length of the whitespace character at `input[i..]`, 0 if there is none.
fn blank_len_at(input: &[u8], i: usize) -> (k: usize)
    requires
        i < input@.len(),
    ensures
        k == blank_len(input@.skip(i as int)),
        k <= input@.len() - i,
{
    let ghost s = input@.skip(i as int);
    let n = input.len() - i;
    let b0 = input[i];
    assert(s[0] == b0);
    if b0 == 0x20u8 || b0 == 0x09u8 || b0 == 0x0du8 || b0 == 0x0bu8 || b0 == 0x0cu8 {
        return 1;
    }
    if n >= 2 {
        let b1 = input[i + 1];
        assert(s[1] == b1);
        if b0 == 0xc2u8 && (b1 == 0x85u8 || b1 == 0xa0u8) {
            return 2;
        }
        if n >= 3 {
            let b2 = input[i + 2];
            assert(s[2] == b2);
            if b0 == 0xe1u8 && b1 == 0x9au8 && b2 == 0x80u8 {
                return 3;
            }
            if b0 == 0xe2u8 && b1 == 0x80u8 && ((0x80u8 <= b2 && b2 <= 0x8au8) || b2 == 0xa8u8 || b2 == 0xa9u8
                || b2 == 0xafu8) {
                return 3;
            }
            if b0 == 0xe2u8 && b1 == 0x81u8 && b2 == 0x9fu8 {
                return 3;
            }
            if b0 == 0xe3u8 && b1 == 0x80u8 && b2 == 0x80u8 {
                return 3;
            }
        }
    }
    0
}

/// Built-in filter: lowercase ASCII
pub struct LowercaseAscii;

impl PreTokenFilter for LowercaseAscii {
    open spec fn spec_name(&self) -> Seq<char> {
        "lowercase_ascii"@
    }

    open spec fn spec_apply(&self, input: Seq<u8>) -> Seq<u8> {
        input.map_values(|b: u8| lower_byte(b))
    }

    fn name(&self) -> (name: &str) {
        "lowercase_ascii"
    }

    fn apply(&self, input: &[u8]) -> (out: Vec<u8>) {
        let mut out: Vec<u8> = Vec::with_capacity(input.len());
        let mut i: usize = 0;
        while i < input.len()
            invariant
                i <= input@.len(),
                out@ == input@.take(i as int).map_values(|b: u8| lower_byte(b)),
            decreases input@.len() - i,
        {
            let b = input[i];
            let lowered = if b >= 0x41u8 && b <= 0x5au8 {
                b + 32
            } else {
                b
            };
            out.push(lowered);
            assert(input@.take(i + 1).map_values(|b: u8| lower_byte(b)) =~= input@.take(
                i as int,
            ).map_values(|b: u8| lower_byte(b)).push(lower_byte(b)));
            i = i + 1;
        }
        assert(input@.take(i as int) =~= input@);
        out
    }
}

/// Built-in filter: strip non-printable bytes (keep 0x20-0x7E, newline, tab)
pub struct StripNonPrintable;

impl PreTokenFilter for StripNonPrintable {
    open spec fn spec_name(&self) -> Seq<char> {
        "strip_non_printable"@
    }

    open spec fn spec_apply(&self, input: Seq<u8>) -> Seq<u8> {
        input.filter(|b: u8| is_kept(b))
    }

    fn name(&self) -> (name: &str) {
        "strip_non_printable"
    }

    fn apply(&self, input: &[u8]) -> (out: Vec<u8>) {
        let mut out: Vec<u8> = Vec::with_capacity(input.len());
        let mut i: usize = 0;
        while i < input.len()
            invariant
                i <= input@.len(),
                out@ == input@.take(i as int).filter(|b: u8| is_kept(b)),
            decreases input@.len() - i,
        {
            let b = input[i];
            proof {
                reveal_with_fuel(Seq::<_>::filter, 1);
                assert(input@.take(i + 1).drop_last() =~= input@.take(i as int));
            }
            if (b >= 0x20u8 && b <= 0x7eu8) || b == 0x0au8 || b == 0x09u8 {
                out.push(b);
            }
            i = i + 1;
        }
        assert(input@.take(i as int) =~= input@);
        out
    }
}

/// The result of running `input` through `filters`, first to last.
pub open spec fn run_filters(filters: Seq<Box<dyn PreTokenFilter>>, input: Seq<u8>) -> Seq<u8>
    decreases filters.len(),
{
    if filters.len() == 0 {
        input
    } else {
        filters.last().spec_apply(run_filters(filters.drop_last(), input))
    }
}

/// Filter pipeline: applies a chain of filters in order
pub struct FilterPipeline {
    filters: Vec<Box<dyn PreTokenFilter>>,
}

impl FilterPipeline {
    /// The filters of the pipeline, in the order they run.
    pub closed spec fn stages(&self) -> Seq<Box<dyn PreTokenFilter>> {
        self.filters@
    }

    pub fn new() -> (pipeline: Self)
        ensures
            pipeline.stages() == Seq::<Box<dyn PreTokenFilter>>::empty(),
            pipeline.stages().len() == 0,
    {
        FilterPipeline { filters: Vec::new() }
    }

    pub fn add(&mut self, filter: Box<dyn PreTokenFilter>)
        ensures
            final(self).stages() == old(self).stages().push(filter),
            final(self).stages().len() == old(self).stages().len() + 1,
    {
        let ghost before = self.filters@;
        self.filters.push(filter);
        proof {
            vstd::seq::axiom_seq_push_len(before, filter);
        }
    }

    pub fn apply(&self, input: &[u8]) -> (out: Vec<u8>)
        ensures
            out@ == run_filters(self.stages(), input@),
    {
        let mut data = copy_bytes(input);
        let mut i: usize = 0;
        while i < self.filters.len()
            invariant
                i <= self.filters@.len(),
                data@ == run_filters(self.filters@.take(i as int), input@),
            decreases self.filters@.len() - i,
        {
            data = self.filters[i].apply(&data);
            assert(self.filters@.take(i + 1).drop_last() == self.filters@.take(i as int));
            i = i + 1;
        }
        assert(self.filters@.take(i as int) == self.filters@);
        data
    }

    pub fn is_empty(&self) -> (empty: bool)
        ensures
            empty == (self.stages().len() == 0),
    {
        self.filters.len() == 0
    }

    pub fn filter_names(&self) -> (names: Vec<&str>)
        ensures
            names@.len() == self.stages().len(),
            forall|i: int| 0 <= i < names@.len() ==> (#[trigger] names@[i])@ == self.stages()[i].spec_name(),
    {
        let mut names: Vec<&str> = Vec::new();
        let mut i: usize = 0;
        while i < self.filters.len()
            invariant
                i <= self.filters@.len(),
                names@.len() == i,
                forall|j: int| 0 <= j < i ==> (#[trigger] names@[j])@ == self.filters@[j].spec_name(),
            decreases self.filters@.len() - i,
        {
            names.push(self.filters[i].name());
            i = i + 1;
        }
        names
    }
}

impl Default for FilterPipeline {
    fn default() -> (pipeline: Self)
        ensures
            pipeline.stages() == Seq::<Box<dyn PreTokenFilter>>::empty(),
    {
        Self::new()
    }
}

} // verus!
