use vstd::prelude::*;
use vstd::std_specs::iter::IteratorSpec;
use vstd::string::StrSliceExecFns;

verus! {

broadcast use vstd::string::group_string_axioms;

/// Whether `c` is whitespace: one of the code points with Unicode's White_Space
/// property. These are the controls from tab to carriage return, the space, the next
/// line control, the no-break space, the ogham space mark, the spaces from en quad to
/// hair space, the line and paragraph separators, the narrow no-break space, the
/// medium mathematical space and the ideographic space.
pub open spec fn is_white_space(c: char) -> bool {
    let code = c as u32;
    ||| 0x09 <= code <= 0x0d
    ||| code == 0x20
    ||| code == 0x85
    ||| code == 0xa0
    ||| code == 0x1680
    ||| 0x2000 <= code <= 0x200a
    ||| code == 0x2028
    ||| code == 0x2029
    ||| code == 0x202f
    ||| code == 0x205f
    ||| code == 0x3000
}

/// Whether `c` is whitespace.
pub fn is_whitespace(c: char) -> (r: bool)
    ensures
        r == is_white_space(c),
{
    let code: u32 = c as u32;
    (0x09 <= code && code <= 0x0d) || code == 0x20 || code == 0x85 || code == 0xa0 || code
        == 0x1680 || (0x2000 <= code && code <= 0x200a) || code == 0x2028 || code == 0x2029
        || code == 0x202f || code == 0x205f || code == 0x3000
}

/// The characters of `s`, one element each.
pub fn chars_of(s: &str) -> (v: Vec<char>)
    ensures
        v@ == s@,
{
    let mut v: Vec<char> = Vec::new();
    let mut chars = s.chars();
    loop
        invariant
            chars.obeys_prophetic_iter_laws(),
            v@ + chars.remaining() == s@,
        ensures
            v@ == s@,
        decreases s@.len() - v@.len(),
    {
        match chars.next() {
            Some(c) => {
                v.push(c);
                assert(v@ + chars.remaining() =~= s@);
            },
            None => {
                assert(v@ =~= s@);
                break ;
            },
        }
    }
    v
}

/// Whether two texts hold the same characters.
pub fn same_text(a: &str, b: &str) -> (r: bool)
    ensures
        r == (a@ == b@),
{
    let x = chars_of(a);
    let y = chars_of(b);
    same_chars(&x, &y)
}

/// Whether two character vectors are equal, element by element.
pub fn same_chars(a: &Vec<char>, b: &Vec<char>) -> (r: bool)
    ensures
        r == (a@ == b@),
{
    if a.len() != b.len() {
        return false;
    }
    let mut i: usize = 0;
    while i < a.len()
        invariant
            i <= a.len(),
            a.len() == b.len(),
            forall|k: int| 0 <= k < i ==> a@[k] == b@[k],
        decreases a.len() - i,
    {
        if a[i] != b[i] {
            return false;
        }
        i = i + 1;
    }
    assert(a@ =~= b@);
    true
}

/// How many of the characters of `s` are the plain space.
pub open spec fn spaces_in(s: Seq<char>) -> nat {
    s.filter(|c: char| c == ' ').len()
}

/// Counts the plain spaces of `data`.
pub fn space_count(data: &str) -> (count: usize)
    ensures
        count == spaces_in(data@),
{
    let v = chars_of(data);
    let ghost is_space = |c: char| c == ' ';
    let mut count: usize = 0;
    let mut i: usize = 0;
    proof {
        assert(v@.take(0) =~= Seq::<char>::empty());
        reveal(Seq::filter);
    }
    while i < v.len()
        invariant
            i <= v.len(),
            count <= i,
            v@ == data@,
            is_space == (|c: char| c == ' '),
            count == v@.take(i as int).filter(is_space).len(),
        decreases v.len() - i,
    {
        proof {
            assert(v@.take(i + 1).drop_last() =~= v@.take(i as int));
            reveal(Seq::filter);
        }
        if v[i] == ' ' {
            count = count + 1;
        }
        i = i + 1;
    }
    assert(v@.take(i as int) =~= v@);
    count
}

/// `s` without its leading whitespace.
pub open spec fn strip_front(s: Seq<char>) -> Seq<char>
    decreases s.len(),
{
    if s.len() > 0 && is_white_space(s[0]) {
        strip_front(s.drop_first())
    } else {
        s
    }
}

/// `s` without its trailing whitespace.
pub open spec fn strip_back(s: Seq<char>) -> Seq<char>
    decreases s.len(),
{
    if s.len() > 0 && is_white_space(s.last()) {
        strip_back(s.drop_last())
    } else {
        s
    }
}

/// `s` without the whitespace at either end.
pub open spec fn trimmed(s: Seq<char>) -> Seq<char> {
    strip_back(strip_front(s))
}

/// A copy of `text` without the whitespace at either end.
pub fn trim(text: &str) -> (r: String)
    ensures
        r@ == trimmed(text@),
{
    let v = chars_of(text);
    let n = v.len();
    let mut a: usize = 0;
    assert(v@.skip(0) =~= v@);
    while a < n && is_whitespace(v[a])
        invariant
            a <= n,
            n == v.len(),
            strip_front(v@) == strip_front(v@.skip(a as int)),
        decreases n - a,
    {
        proof {
            let s = v@.skip(a as int);
            assert(s[0] == v@[a as int]);
            assert(s.drop_first() =~= v@.skip(a + 1));
        }
        a = a + 1;
    }
    proof {
        let s = v@.skip(a as int);
        if a < n {
            assert(s[0] == v@[a as int]);
        }
        assert(strip_front(s) == s);
        assert(s =~= v@.subrange(a as int, n as int));
    }
    let mut b: usize = n;
    while b > a && is_whitespace(v[b - 1])
        invariant
            a <= b <= n,
            n == v.len(),
            strip_back(v@.subrange(a as int, n as int)) == strip_back(v@.subrange(a as int, b as int)),
        decreases b,
    {
        proof {
            let s = v@.subrange(a as int, b as int);
            assert(s.last() == v@[b - 1]);
            assert(s.drop_last() =~= v@.subrange(a as int, b - 1));
        }
        b = b - 1;
    }
    proof {
        let s = v@.subrange(a as int, b as int);
        if b > a {
            assert(s.last() == v@[b - 1]);
        }
        assert(strip_back(s) == s);
    }
    text.substring_char(a, b).to_owned()
}

/// Whether `text` holds nothing but whitespace.
pub fn is_blank(text: &str) -> (r: bool)
    ensures
        r == (trimmed(text@).len() == 0),
{
    let kept = trim(text);
    kept.as_str().unicode_len() == 0
}

/// One token per character of `s`.
pub open spec fn characters(s: Seq<char>) -> Seq<Seq<char>> {
    Seq::new(s.len(), |i: int| seq![s[i]])
}

/// The maximal runs of non-whitespace characters of `s`, in order.
pub open spec fn words(s: Seq<char>) -> Seq<Seq<char>>
    decreases s.len(),
{
    if s.len() == 0 {
        Seq::empty()
    } else if is_white_space(s.last()) {
        words(s.drop_last())
    } else if s.len() >= 2 && !is_white_space(s[s.len() - 2]) {
        let before = words(s.drop_last());
        before.drop_last().push(before.last().push(s.last()))
    } else {
        words(s.drop_last()).push(seq![s.last()])
    }
}

/// The tokens of a document: its characters, or in word mode its words.
pub open spec fn tokens_of(s: Seq<char>, word_mode: bool) -> Seq<Seq<char>> {
    if word_mode {
        words(s)
    } else {
        characters(s)
    }
}

/// The views of the tokens held in `tokens`.
pub open spec fn token_views(tokens: Seq<Vec<char>>) -> Seq<Seq<char>> {
    Seq::new(tokens.len(), |i: int| tokens[i]@)
}

/// Splits `text` into tokens: one per character, or in word mode one per
/// whitespace-delimited word.
pub fn tokenize(text: &str, word_mode: bool) -> (tokens: Vec<Vec<char>>)
    ensures
        token_views(tokens@) == tokens_of(text@, word_mode),
{
    let v = chars_of(text);
    let mut tokens: Vec<Vec<char>> = Vec::new();
    let mut i: usize = 0;
    if !word_mode {
        while i < v.len()
            invariant
                i <= v.len(),
                tokens.len() == i,
                forall|k: int| 0 <= k < i ==> (#[trigger] tokens@[k])@ == seq![v@[k]],
            decreases v.len() - i,
        {
            let mut token: Vec<char> = Vec::new();
            token.push(v[i]);
            assert(token@ =~= seq![v@[i as int]]);
            tokens.push(token);
            i = i + 1;
        }
        assert(token_views(tokens@) =~= characters(v@));
        return tokens;
    }
    let mut word: Vec<char> = Vec::new();
    assert(v@.take(0) =~= Seq::<char>::empty());
    assert(token_views(tokens@) =~= Seq::<Seq<char>>::empty());
    while i < v.len()
        invariant
            i <= v.len(),
            word.len() == 0 <==> (i == 0 || is_white_space(v@[i - 1])),
            word.len() == 0 ==> token_views(tokens@) == words(v@.take(i as int)),
            word.len() > 0 ==> token_views(tokens@).push(word@) == words(v@.take(i as int)),
        decreases v.len() - i,
    {
        let c = v[i];
        proof {
            let s = v@.take(i + 1);
            assert(s.drop_last() =~= v@.take(i as int));
            assert(s.last() == c);
            if i > 0 {
                assert(s[s.len() - 2] == v@[i - 1]);
            }
        }
        if is_whitespace(c) {
            if word.len() > 0 {
                let ghost before = token_views(tokens@);
                tokens.push(word);
                assert(token_views(tokens@) =~= before.push(word@));
                word = Vec::new();
            }
        } else {
            let ghost before = token_views(tokens@).push(word@);
            let ghost shorter = word@;
            word.push(c);
            proof {
                if shorter.len() > 0 {
                    assert(before.drop_last() =~= token_views(tokens@));
                    assert(before.last() == shorter);
                } else {
                    assert(word@ =~= seq![c]);
                }
                assert(token_views(tokens@).push(word@) =~= words(v@.take(i + 1)));
            }
        }
        i = i + 1;
    }
    assert(v@.take(i as int) =~= v@);
    if word.len() > 0 {
        let ghost before = token_views(tokens@);
        tokens.push(word);
        assert(token_views(tokens@) =~= before.push(word@));
    }
    tokens
}

} // verus!
