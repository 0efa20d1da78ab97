use vstd::prelude::*;

verus! {

/// The character for a decimal digit.
pub open spec fn digit_char(d: nat) -> char
    recommends
        d < 10,
{
    ((d + 48) as u32) as char
}

/// The decimal digits of a natural number, most significant first, without leading zeros.
pub open spec fn digits_of(n: nat) -> Seq<char>
    decreases n,
{
    if n < 10 {
        seq![digit_char(n)]
    } else {
        digits_of(n / 10).push(digit_char(n % 10))
    }
}

/// An integer as decimal text, with a leading minus sign when negative.
pub open spec fn int_text(n: int) -> Seq<char> {
    if n < 0 {
        seq!['-'] + digits_of((-n) as nat)
    } else {
        digits_of(n as nat)
    }
}

/// `n` copies of the character `c`.
pub open spec fn repeat_char(c: char, n: nat) -> Seq<char> {
    Seq::new(n, |i: int| c)
}

/// Text right-justified in a field of `width` characters (longer text is kept whole).
pub open spec fn pad_left(s: Seq<char>, width: nat) -> Seq<char> {
    if s.len() >= width {
        s
    } else {
        repeat_char(' ', (width - s.len()) as nat) + s
    }
}

/// Text left-justified in a field of `width` characters (longer text is kept whole).
pub open spec fn pad_right(s: Seq<char>, width: nat) -> Seq<char> {
    if s.len() >= width {
        s
    } else {
        s + repeat_char(' ', (width - s.len()) as nat)
    }
}

/// Text centred in a field of `width` characters; an odd leftover space goes to the right.
pub open spec fn center(s: Seq<char>, width: nat) -> Seq<char> {
    if s.len() >= width {
        s
    } else {
        let fill = (width - s.len()) as nat;
        repeat_char(' ', fill / 2) + s + repeat_char(' ', (fill - fill / 2) as nat)
    }
}

/// Relies on `String::push`: the character is appended at the end.
#[verifier::external_body]
pub(crate) fn push_char(s: &mut String, c: char)
    ensures
        final(s)@ == old(s)@.push(c),
{
    s.push(c);
}

/// The character for a decimal digit below ten.
pub fn digit(d: u128) -> (c: char)
    requires
        d < 10,
    ensures
        c == digit_char(d as nat),
{
    ((d as u8) + 48u8) as char
}

/// Appends the decimal digits of `n`.
pub fn push_digits(out: &mut String, n: u128)
    ensures
        final(out)@ == old(out)@ + digits_of(n as nat),
    decreases n,
{
    if n >= 10 {
        push_digits(out, n / 10);
    }
    push_char(out, digit(n % 10));
    assert(out@ =~= old(out)@ + digits_of(n as nat));
}

/// An integer as decimal text.
pub fn int_to_text(n: i64) -> (r: String)
    ensures
        r@ == int_text(n as int),
{
    let mut out = String::new();
    if n < 0 {
        push_char(&mut out, '-');
        let magnitude: u64 = ((-(n + 1)) as u64) + 1;
        push_digits(&mut out, magnitude as u128);
    } else {
        push_digits(&mut out, n as u128);
    }
    assert(out@ =~= int_text(n as int));
    out
}

/// A count as decimal text.
pub fn count_to_text(n: u128) -> (r: String)
    ensures
        r@ == digits_of(n as nat),
{
    let mut out = String::new();
    push_digits(&mut out, n);
    assert(out@ =~= digits_of(n as nat));
    out
}

/// Appends `n` copies of `c`.
pub fn push_repeated(out: &mut String, c: char, n: usize)
    ensures
        final(out)@ == old(out)@ + repeat_char(c, n as nat),
{
    let mut i: usize = 0;
    while i < n
        invariant
            i <= n,
            out@ == old(out)@ + repeat_char(c, i as nat),
        decreases n - i,
    {
        push_char(out, c);
        i = i + 1;
        assert(out@ =~= old(out)@ + repeat_char(c, i as nat));
    }
}

/// `n` copies of `c` as a new string.
pub fn repeated(c: char, n: usize) -> (r: String)
    ensures
        r@ == repeat_char(c, n as nat),
{
    let mut out = String::new();
    push_repeated(&mut out, c, n);
    assert(out@ =~= repeat_char(c, n as nat));
    out
}

/// Appends the text.
pub fn push_text(out: &mut String, s: &str)
    ensures
        final(out)@ == old(out)@ + s@,
{
    out.append(s);
}

/// Appends `s` right-justified in a field of `width` characters.
pub fn push_padded_left(out: &mut String, s: &str, width: usize)
    ensures
        final(out)@ == old(out)@ + pad_left(s@, width as nat),
{
    let len = s.unicode_len();
    if len < width {
        push_repeated(out, ' ', width - len);
    }
    out.append(s);
    assert(out@ =~= old(out)@ + pad_left(s@, width as nat));
}

/// Appends `s` left-justified in a field of `width` characters.
pub fn push_padded_right(out: &mut String, s: &str, width: usize)
    ensures
        final(out)@ == old(out)@ + pad_right(s@, width as nat),
{
    let len = s.unicode_len();
    out.append(s);
    if len < width {
        push_repeated(out, ' ', width - len);
    }
    assert(out@ =~= old(out)@ + pad_right(s@, width as nat));
}

/// `s` centred in a field of `width` characters.
pub fn centered(s: &str, width: usize) -> (r: String)
    ensures
        r@ == center(s@, width as nat),
{
    let len = s.unicode_len();
    let mut out = String::new();
    if len < width {
        let fill = width - len;
        push_repeated(&mut out, ' ', fill / 2);
        out.append(s);
        push_repeated(&mut out, ' ', fill - fill / 2);
    } else {
        out.append(s);
    }
    assert(out@ =~= center(s@, width as nat));
    out
}

/// Whether two texts are equal.
pub fn same_text(a: &str, b: &str) -> (r: bool)
    ensures
        r == (a@ == b@),
{
    let n = a.unicode_len();
    if n != b.unicode_len() {
        return false;
    }
    let mut i: usize = 0;
    while i < n
        invariant
            n == a@.len(),
            n == b@.len(),
            i <= n,
            a@.subrange(0, i as int) == b@.subrange(0, i as int),
        decreases n - i,
    {
        if a.get_char(i) != b.get_char(i) {
            return false;
        }
        assert(a@.subrange(0, i + 1) =~= a@.subrange(0, i as int).push(a@[i as int]));
        assert(b@.subrange(0, i + 1) =~= b@.subrange(0, i as int).push(b@[i as int]));
        i = i + 1;
    }
    assert(a@ =~= a@.subrange(0, n as int));
    assert(b@ =~= b@.subrange(0, n as int));
    true
}

/// `a` sorts strictly before `b` in the character-by-character order of strings.
pub open spec fn text_before(a: Seq<char>, b: Seq<char>) -> bool
    decreases a.len(),
{
    if a.len() == 0 {
        b.len() > 0
    } else if b.len() == 0 {
        false
    } else if a[0] != b[0] {
        (a[0] as int) < (b[0] as int)
    } else {
        text_before(a.drop_first(), b.drop_first())
    }
}

/// No text sorts before itself.
pub proof fn lemma_text_before_irreflexive(a: Seq<char>)
    ensures
        !text_before(a, a),
    decreases a.len(),
{
    if a.len() > 0 {
        lemma_text_before_irreflexive(a.drop_first());
    }
}

/// The order of strings is transitive.
pub proof fn lemma_text_before_transitive(a: Seq<char>, b: Seq<char>, c: Seq<char>)
    requires
        text_before(a, b),
        text_before(b, c),
    ensures
        text_before(a, c),
    decreases a.len(),
{
    if a.len() > 0 && b.len() > 0 && c.len() > 0 && a[0] == b[0] && b[0] == c[0] {
        lemma_text_before_transitive(a.drop_first(), b.drop_first(), c.drop_first());
    }
}

/// Of two different strings, one sorts before the other.
pub proof fn lemma_text_before_total(a: Seq<char>, b: Seq<char>)
    requires
        a != b,
    ensures
        text_before(a, b) || text_before(b, a),
    decreases a.len(),
{
    if a.len() > 0 && b.len() > 0 && a[0] == b[0] {
        if a.drop_first() == b.drop_first() {
            assert(a =~= seq![a[0]] + a.drop_first());
            assert(b =~= seq![b[0]] + b.drop_first());
        }
        lemma_text_before_total(a.drop_first(), b.drop_first());
    } else if a.len() == 0 && b.len() == 0 {
        assert(a =~= b);
    }
}

proof fn lemma_text_before_skip(a: Seq<char>, b: Seq<char>, i: int)
    requires
        0 <= i <= a.len(),
        i <= b.len(),
        a.subrange(0, i) == b.subrange(0, i),
    ensures
        text_before(a, b) == text_before(a.skip(i), b.skip(i)),
    decreases i,
{
    if i > 0 {
        assert(a[0] == a.subrange(0, i)[0]);
        assert(b[0] == b.subrange(0, i)[0]);
        assert(a.drop_first().subrange(0, i - 1) =~= a.subrange(0, i).drop_first());
        assert(b.drop_first().subrange(0, i - 1) =~= b.subrange(0, i).drop_first());
        lemma_text_before_skip(a.drop_first(), b.drop_first(), i - 1);
        assert(a.drop_first().skip(i - 1) =~= a.skip(i));
        assert(b.drop_first().skip(i - 1) =~= b.skip(i));
    } else {
        assert(a.skip(0) =~= a);
        assert(b.skip(0) =~= b);
    }
}

/// Whether `a` sorts strictly before `b`.
pub fn text_less(a: &str, b: &str) -> (r: bool)
    ensures
        r == text_before(a@, b@),
{
    let na = a.unicode_len();
    let nb = b.unicode_len();
    let mut i: usize = 0;
    proof {
        assert(a@.subrange(0, 0) =~= b@.subrange(0, 0));
        lemma_text_before_skip(a@, b@, 0);
    }
    while i < na && i < nb
        invariant
            na == a@.len(),
            nb == b@.len(),
            i <= na,
            i <= nb,
            a@.subrange(0, i as int) == b@.subrange(0, i as int),
            text_before(a@, b@) == text_before(a@.skip(i as int), b@.skip(i as int)),
        decreases na - i,
    {
        let ca = a.get_char(i);
        let cb = b.get_char(i);
        if ca != cb {
            assert(a@.skip(i as int)[0] == ca);
            assert(b@.skip(i as int)[0] == cb);
            return (ca as u32) < (cb as u32);
        }
        assert(a@.subrange(0, i + 1) =~= a@.subrange(0, i as int).push(ca));
        assert(b@.subrange(0, i + 1) =~= b@.subrange(0, i as int).push(cb));
        proof {
            lemma_text_before_skip(a@, b@, i + 1);
        }
        i = i + 1;
    }
    i < nb
}

/// Whether `s` holds `x`.
pub fn holds_text(s: &Vec<String>, x: &str) -> (r: bool)
    ensures
        r == texts(s@).contains(x@),
{
    let ghost v = texts(s@);
    let mut i: usize = 0;
    while i < s.len()
        invariant
            i <= s@.len(),
            v == texts(s@),
            forall|q: int| 0 <= q < i ==> v[q] != x@,
        decreases s@.len() - i,
    {
        if same_text(s[i].as_str(), x) {
            assert(v[i as int] == x@);
            return true;
        }
        i = i + 1;
    }
    false
}

/// The views of a sequence of strings.
pub open spec fn texts(v: Seq<String>) -> Seq<Seq<char>> {
    v.map_values(|s: String| s@)
}

/// An optional text, as its view.
pub open spec fn opt_text(o: Option<String>) -> Option<Seq<char>> {
    match o {
        Some(s) => Some(s@),
        None => None,
    }
}

/// An optional count or number, 0 where it is absent.
pub open spec fn count_or_zero(o: Option<i64>) -> i64 {
    match o {
        Some(v) => v,
        None => 0,
    }
}

/// The text of an optional field, or `default` where it is absent.
pub open spec fn text_or(o: Option<String>, default: Seq<char>) -> Seq<char> {
    match o {
        Some(s) => s@,
        None => default,
    }
}

/// The text of an optional field, or `default` where it is absent.
pub fn text_or_default(o: &Option<String>, default: &str) -> (r: String)
    ensures
        r@ == text_or(*o, default@),
{
    match o {
        Some(s) => s.clone(),
        None => String::from_str(default),
    }
}

/// The distinct texts of `keys`, each once, in ascending order.
pub fn distinct_sorted(keys: &Vec<String>) -> (r: Vec<String>)
    ensures
        forall|p: int, q: int|
            #![trigger texts(r@)[p], texts(r@)[q]]
            0 <= p < q < r@.len() ==> text_before(texts(r@)[p], texts(r@)[q]),
        forall|x: Seq<char>| texts(r@).contains(x) <==> texts(keys@).contains(x),
{
    let mut r: Vec<String> = Vec::new();
    let mut k: usize = 0;
    while k < keys.len()
        invariant
            k <= keys@.len(),
            forall|p: int, q: int|
                #![trigger texts(r@)[p], texts(r@)[q]]
                0 <= p < q < r@.len() ==> text_before(texts(r@)[p], texts(r@)[q]),
            forall|x: Seq<char>|
                texts(r@).contains(x) <==> texts(keys@).subrange(0, k as int).contains(x),
        decreases keys@.len() - k,
    {
        let key = &keys[k];
        let ghost kv = texts(keys@);
        assert(kv[k as int] == key@);
        assert(kv.subrange(0, k + 1) =~= kv.subrange(0, k as int).push(key@));
        if !holds_text(&r, key.as_str()) {
            let mut pos: usize = 0;
            let mut found = false;
            while !found && pos < r.len()
                invariant
                    pos <= r@.len(),
                    found ==> pos < r@.len() && text_before(key@, texts(r@)[pos as int]),
                    forall|q: int| 0 <= q < pos ==> !text_before(key@, #[trigger] texts(r@)[q]),
                decreases r@.len() - pos + (if found { 0int } else { 1int }),
            {
                if text_less(key.as_str(), r[pos].as_str()) {
                    found = true;
                } else {
                    pos = pos + 1;
                }
            }
            let ghost old_t = texts(r@);
            r.insert(pos, key.clone());
            proof {
                let t = texts(r@);
                assert(t =~= old_t.insert(pos as int, key@));
                assert forall|p: int, q: int|
                    #![trigger t[p], t[q]]
                    0 <= p < q < t.len() implies text_before(t[p], t[q]) by {
                    if q < pos {
                        assert(t[p] == old_t[p] && t[q] == old_t[q]);
                    } else if q == pos {
                        assert(t[p] == old_t[p]);
                        assert(!text_before(key@, old_t[p]));
                        assert(old_t[p] != key@);
                        lemma_text_before_total(key@, old_t[p]);
                    } else if p < pos {
                        assert(t[p] == old_t[p] && t[q] == old_t[q - 1]);
                    } else if p == pos {
                        assert(t[q] == old_t[q - 1]);
                        if q - 1 > pos {
                            assert(text_before(old_t[pos as int], old_t[q - 1]));
                            lemma_text_before_transitive(key@, old_t[pos as int], old_t[q - 1]);
                        }
                    } else {
                        assert(t[p] == old_t[p - 1] && t[q] == old_t[q - 1]);
                    }
                }
                assert forall|x: Seq<char>| t.contains(x) <==> kv.subrange(0, k + 1).contains(x) by {
                    if t.contains(x) {
                        let j = choose|j: int| 0 <= j < t.len() && t[j] == x;
                        if j != pos {
                            let j2 = if j < pos { j } else { j - 1 };
                            assert(old_t[j2] == x);
                            assert(old_t.contains(x));
                            assert(kv.subrange(0, k as int).contains(x));
                            let j3 = choose|j3: int|
                                0 <= j3 < k && #[trigger] kv.subrange(0, k as int)[j3] == x;
                            assert(kv.subrange(0, k + 1)[j3] == x);
                        } else {
                            assert(kv.subrange(0, k + 1)[k as int] == x);
                        }
                    }
                    if kv.subrange(0, k + 1).contains(x) {
                        if x == key@ {
                            assert(t[pos as int] == x);
                        } else {
                            let j = choose|j: int|
                                0 <= j < k + 1 && #[trigger] kv.subrange(0, k + 1)[j] == x;
                            assert(kv.subrange(0, k as int)[j] == x);
                            assert(old_t.contains(x));
                            let j2 = choose|j2: int| 0 <= j2 < old_t.len() && old_t[j2] == x;
                            if j2 < pos {
                                assert(t[j2] == x);
                            } else {
                                assert(t[j2 + 1] == x);
                            }
                        }
                    }
                }
            }
        } else {
            proof {
                let t = texts(r@);
                assert(t.contains(key@));
                assert forall|x: Seq<char>| t.contains(x) <==> kv.subrange(0, k + 1).contains(x) by {
                    if t.contains(x) {
                        assert(kv.subrange(0, k as int).contains(x));
                        let j3 = choose|j3: int|
                            0 <= j3 < k && #[trigger] kv.subrange(0, k as int)[j3] == x;
                        assert(kv.subrange(0, k + 1)[j3] == x);
                    }
                    if kv.subrange(0, k + 1).contains(x) {
                        if x != key@ {
                            let j = choose|j: int|
                                0 <= j < k + 1 && #[trigger] kv.subrange(0, k + 1)[j] == x;
                            assert(kv.subrange(0, k as int)[j] == x);
                        }
                    }
                }
            }
        }
        k = k + 1;
    }
    assert(texts(keys@).subrange(0, k as int) =~= texts(keys@));
    r
}

/// The positions, in increasing order, at which `keys` holds `key`.
pub fn positions_of(keys: &Vec<String>, key: &str) -> (r: Vec<usize>)
    ensures
        forall|p: int, q: int| #![trigger r@[p], r@[q]] 0 <= p < q < r@.len() ==> r@[p] < r@[q],
        forall|q: int| 0 <= q < r@.len() ==> (r@[q] as int) < keys@.len(),
        forall|q: int| 0 <= q < r@.len() ==> texts(keys@)[#[trigger] r@[q] as int] == key@,
        forall|i: int|
            0 <= i < keys@.len() && texts(keys@)[i] == key@ ==> #[trigger] r@.contains(i as usize),
{
    let mut r: Vec<usize> = Vec::new();
    let mut i: usize = 0;
    while i < keys.len()
        invariant
            i <= keys@.len(),
            forall|p: int, q: int|
                #![trigger r@[p], r@[q]]
                0 <= p < q < r@.len() ==> r@[p] < r@[q],
            forall|q: int| 0 <= q < r@.len() ==> r@[q] < i,
            forall|q: int| 0 <= q < r@.len() ==> texts(keys@)[#[trigger] r@[q] as int] == key@,
            forall|j: int|
                0 <= j < i && texts(keys@)[j] == key@ ==> #[trigger] r@.contains(j as usize),
        decreases keys@.len() - i,
    {
        assert(texts(keys@)[i as int] == keys@[i as int]@);
        if same_text(keys[i].as_str(), key) {
            let ghost old_r = r@;
            r.push(i);
            proof {
                assert forall|j: int|
                    0 <= j < i + 1 && texts(keys@)[j] == key@ implies #[trigger] r@.contains(
                    j as usize,
                ) by {
                    if j == i {
                        assert(r@[old_r.len() as int] == i);
                    } else {
                        assert(old_r.contains(j as usize));
                        let q = choose|q: int| 0 <= q < old_r.len() && old_r[q] == j as usize;
                        assert(r@[q] == j as usize);
                    }
                }
            }
        }
        i = i + 1;
    }
    r
}

/// What `str::to_lowercase` gives for a text.
pub uninterp spec fn lower_of(s: Seq<char>) -> Seq<char>;

/// What `str::to_uppercase` gives for a text.
pub uninterp spec fn upper_of(s: Seq<char>) -> Seq<char>;

/// Relies on `str::to_lowercase`: Unicode lower case, which depends on the text alone.
#[verifier::external_body]
pub(crate) fn lowercase(s: &str) -> (r: String)
    ensures
        r@ == lower_of(s@),
{
    s.to_lowercase()
}

/// Relies on `str::to_uppercase`: Unicode upper case, which depends on the text alone.
#[verifier::external_body]
pub(crate) fn uppercase(s: &str) -> (r: String)
    ensures
        r@ == upper_of(s@),
{
    s.to_uppercase()
}

} // verus!
