use vstd::prelude::*;

verus! {

/// `String::push` appends the character: afterwards the string holds what it held before with
/// `ch` at its end.
pub assume_specification[ String::push ](string: &mut String, ch: char)
    ensures
        final(string)@ == old(string)@.push(ch),
;

/// The characters of `s`, in order.
pub fn caracteres(s: &str) -> (r: Vec<char>)
    ensures
        r@ == s@,
{
    broadcast use vstd::string::group_string_axioms;
    let mut r: Vec<char> = Vec::new();
    for c in it: s.chars()
        invariant
            r@ == it.seq().take(it.index() as int),
            it.seq() == s@,
    {
        r.push(c);
    }
    r
}

/// A `String` holding exactly the characters of `v`.
pub fn texto_de(v: &[char]) -> (r: String)
    ensures
        r@ == v@,
{
    let mut r = String::new();
    let mut i: usize = 0;
    while i < v.len()
        invariant
            i <= v@.len(),
            r@ == v@.take(i as int),
        decreases v.len() - i,
    {
        r.push(v[i]);
        proof { assert(v@.take(i + 1) == v@.take(i as int).push(v@[i as int])); }
        i += 1;
    }
    proof { assert(v@.take(v@.len() as int) == v@); }
    r
}


/// The Unicode `White_Space` property, which `char::is_whitespace` tests.
pub open spec fn eh_espaco(c: char) -> bool {
    ||| '\u{9}' <= c <= '\u{D}'
    ||| c == ' '
    ||| c == '\u{85}'
    ||| c == '\u{A0}'
    ||| c == '\u{1680}'
    ||| '\u{2000}' <= c <= '\u{200A}'
    ||| c == '\u{2028}'
    ||| c == '\u{2029}'
    ||| c == '\u{202F}'
    ||| c == '\u{205F}'
    ||| c == '\u{3000}'
}

pub fn espaco(c: char) -> (r: bool)
    ensures
        r == eh_espaco(c),
{
    ('\u{9}' <= c && c <= '\u{D}') || c == ' ' || c == '\u{85}' || c == '\u{A0}'
        || c == '\u{1680}' || ('\u{2000}' <= c && c <= '\u{200A}') || c == '\u{2028}'
        || c == '\u{2029}' || c == '\u{202F}' || c == '\u{205F}' || c == '\u{3000}'
}

/// `s` without its leading whitespace (`str::trim_start`).
pub open spec fn apara_inicio(s: Seq<char>) -> Seq<char>
    decreases s.len(),
{
    if s.len() > 0 && eh_espaco(s[0]) {
        apara_inicio(s.drop_first())
    } else {
        s
    }
}

/// `s` without its trailing whitespace (`str::trim_end`).
pub open spec fn apara_fim(s: Seq<char>) -> Seq<char>
    decreases s.len(),
{
    if s.len() > 0 && eh_espaco(s.last()) {
        apara_fim(s.drop_last())
    } else {
        s
    }
}

/// `s` without leading and trailing whitespace (`str::trim`).
pub open spec fn apara(s: Seq<char>) -> Seq<char> {
    apara_fim(apara_inicio(s))
}

/// The characters of `v` from `a` up to (not including) `b`.
pub fn fatia(v: &[char], a: usize, b: usize) -> (r: Vec<char>)
    requires
        a <= b <= v@.len(),
    ensures
        r@ == v@.subrange(a as int, b as int),
{
    let mut r: Vec<char> = Vec::new();
    let mut i = a;
    while i < b
        invariant
            a <= i <= b <= v@.len(),
            r@ == v@.subrange(a as int, i as int),
        decreases b - i,
    {
        r.push(v[i]);
        proof { assert(v@.subrange(a as int, i + 1) == v@.subrange(a as int, i as int).push(v@[i as int])); }
        i += 1;
    }
    r
}

/// The index where `apara_inicio` of `v[a..b]` starts.
pub fn inicio_aparado(v: &[char], a: usize, b: usize) -> (i: usize)
    requires
        a <= b <= v@.len(),
    ensures
        a <= i <= b,
        apara_inicio(v@.subrange(a as int, b as int)) == v@.subrange(i as int, b as int),
{
    let mut i = a;
    while i < b && espaco(v[i])
        invariant
            a <= i <= b <= v@.len(),
            apara_inicio(v@.subrange(a as int, b as int)) == apara_inicio(v@.subrange(i as int, b as int)),
        decreases b - i,
    {
        proof { assert(v@.subrange(i as int, b as int).drop_first() == v@.subrange(i + 1, b as int)); }
        i += 1;
    }
    i
}

/// The index where `apara_fim` of `v[a..b]` ends.
pub fn fim_aparado(v: &[char], a: usize, b: usize) -> (j: usize)
    requires
        a <= b <= v@.len(),
    ensures
        a <= j <= b,
        apara_fim(v@.subrange(a as int, b as int)) == v@.subrange(a as int, j as int),
{
    let mut j = b;
    while j > a && espaco(v[j - 1])
        invariant
            a <= j <= b <= v@.len(),
            apara_fim(v@.subrange(a as int, b as int)) == apara_fim(v@.subrange(a as int, j as int)),
        decreases j - a,
    {
        proof { assert(v@.subrange(a as int, j as int).drop_last() == v@.subrange(a as int, j - 1)); }
        j -= 1;
    }
    j
}

/// The bounds of `apara(v[a..b])` inside `v`.
pub fn limites_aparados(v: &[char], a: usize, b: usize) -> (r: (usize, usize))
    requires
        a <= b <= v@.len(),
    ensures
        a <= r.0 <= r.1 <= b,
        apara(v@.subrange(a as int, b as int)) == v@.subrange(r.0 as int, r.1 as int),
{
    let i = inicio_aparado(v, a, b);
    let j = fim_aparado(v, i, b);
    (i, j)
}

/// `str::trim` on a sequence of characters.
pub fn aparar(v: &[char]) -> (r: Vec<char>)
    ensures
        r@ == apara(v@),
{
    let (i, j) = limites_aparados(v, 0, v.len());
    proof { assert(v@.subrange(0, v@.len() as int) == v@); }
    fatia(v, i, j)
}


/// The views of a sequence of character vectors.
pub open spec fn vistas(r: Seq<Vec<char>>) -> Seq<Seq<char>> {
    Seq::new(r.len(), |i: int| r[i]@)
}

pub proof fn lemma_vistas_push(r: Seq<Vec<char>>, x: Vec<char>)
    ensures
        vistas(r.push(x)) == vistas(r).push(x@),
{
    assert(vistas(r.push(x)) =~= vistas(r).push(x@));
}

/// The whitespace-separated words of `s` (`str::split_whitespace`).
pub open spec fn palavras(s: Seq<char>) -> Seq<Seq<char>>
    decreases s.len(),
{
    if s.len() == 0 {
        seq![]
    } else {
        let p = palavras(s.drop_last());
        let c = s.last();
        if eh_espaco(c) {
            p
        } else if s.len() >= 2 && !eh_espaco(s[s.len() - 2]) {
            p.update(p.len() - 1, p.last().push(c))
        } else {
            p.push(seq![c])
        }
    }
}

/// `str::split_whitespace` on a sequence of characters.
pub fn separar_palavras(v: &[char]) -> (r: Vec<Vec<char>>)
    ensures
        vistas(r@) == palavras(v@),
{
    let mut palavras_feitas: Vec<Vec<char>> = Vec::new();
    let mut atual: Vec<char> = Vec::new();
    let mut i: usize = 0;
    while i < v.len()
        invariant
            i <= v@.len(),
            atual@.len() > 0 <==> (i > 0 && !eh_espaco(v@[i - 1])),
            palavras(v@.take(i as int)) == (if atual@.len() > 0 {
                vistas(palavras_feitas@).push(atual@)
            } else {
                vistas(palavras_feitas@)
            }),
        decreases v.len() - i,
    {
        let c = v[i];
        proof {
            assert(v@.take(i + 1).drop_last() == v@.take(i as int));
            assert(v@.take(i + 1).last() == c);
        }
        if espaco(c) {
            if atual.len() > 0 {
                proof { lemma_vistas_push(palavras_feitas@, atual); }
                palavras_feitas.push(atual);
                atual = Vec::new();
            }
        } else {
            proof {
                if atual@.len() > 0 {
                    assert(v@.take(i + 1)[i - 1] == v@[i - 1]);
                    assert(vistas(palavras_feitas@).push(atual@).update(
                        vistas(palavras_feitas@).len() as int, atual@.push(c))
                        =~= vistas(palavras_feitas@).push(atual@.push(c)));
                } else {
                    if i > 0 {
                        assert(v@.take(i + 1)[i - 1] == v@[i - 1]);
                    }
                    assert(atual@.push(c) =~= seq![c]);
                }
            }
            atual.push(c);
        }
        i += 1;
    }
    proof { assert(v@.take(v@.len() as int) == v@); }
    if atual.len() > 0 {
        proof { lemma_vistas_push(palavras_feitas@, atual); }
        palavras_feitas.push(atual);
    }
    palavras_feitas
}

/// The pieces of `s` between occurrences of `sep` (`str::split` by a character).
pub open spec fn divide(s: Seq<char>, sep: char) -> Seq<Seq<char>>
    decreases s.len(),
{
    if s.len() == 0 {
        seq![seq![]]
    } else {
        let p = divide(s.drop_last(), sep);
        if s.last() == sep {
            p.push(seq![])
        } else {
            p.update(p.len() - 1, p.last().push(s.last()))
        }
    }
}

pub proof fn lemma_divide_nao_vazio(s: Seq<char>, sep: char)
    ensures
        divide(s, sep).len() >= 1,
    decreases s.len(),
{
    if s.len() > 0 {
        lemma_divide_nao_vazio(s.drop_last(), sep);
    }
}

/// `str::split` by a character on a sequence of characters.
pub fn dividir(v: &[char], sep: char) -> (r: Vec<Vec<char>>)
    ensures
        vistas(r@) == divide(v@, sep),
        r@.len() >= 1,
{
    let mut feitas: Vec<Vec<char>> = Vec::new();
    let mut atual: Vec<char> = Vec::new();
    let mut i: usize = 0;
    while i < v.len()
        invariant
            i <= v@.len(),
            divide(v@.take(i as int), sep) == vistas(feitas@).push(atual@),
        decreases v.len() - i,
    {
        let c = v[i];
        proof {
            assert(v@.take(i + 1).drop_last() == v@.take(i as int));
            assert(v@.take(i + 1).last() == c);
        }
        if c == sep {
            proof {
                lemma_vistas_push(feitas@, atual);
                assert(vistas(feitas@.push(atual)).push(seq![]) =~= vistas(feitas@).push(atual@).push(seq![]));
            }
            feitas.push(atual);
            atual = Vec::new();
        } else {
            proof {
                assert(vistas(feitas@).push(atual@).update(vistas(feitas@).len() as int, atual@.push(c))
                    =~= vistas(feitas@).push(atual@.push(c)));
            }
            atual.push(c);
        }
        i += 1;
    }
    proof {
        assert(v@.take(v@.len() as int) == v@);
        lemma_vistas_push(feitas@, atual);
    }
    feitas.push(atual);
    feitas
}

/// A text without the separator is a single piece.
pub proof fn lemma_divide_sem_separador(t: Seq<char>, sep: char)
    requires
        forall|i: int| 0 <= i < t.len() ==> t[i] != sep,
    ensures
        divide(t, sep) == seq![t],
    decreases t.len(),
{
    if t.len() > 0 {
        lemma_divide_sem_separador(t.drop_last(), sep);
        assert(t[t.len() - 1] != sep);
        assert(t.drop_last().push(t.last()) =~= t);
        assert(seq![t.drop_last()].update(0, t.drop_last().push(t.last())) =~= seq![t]);
    } else {
        assert(t =~= Seq::<char>::empty());
    }
}

/// Splitting `s`, the separator and a text without it gives the pieces of `s` and then that text.
pub proof fn lemma_divide_junta(s: Seq<char>, t: Seq<char>, sep: char)
    requires
        forall|i: int| 0 <= i < t.len() ==> t[i] != sep,
    ensures
        divide(s + seq![sep] + t, sep) == divide(s, sep).push(t),
    decreases t.len(),
{
    let x = s + seq![sep] + t;
    let p = divide(s, sep);
    if t.len() == 0 {
        assert(x == s.push(sep));
        assert(x.drop_last() == s);
        assert(t =~= Seq::<char>::empty());
    } else {
        lemma_divide_junta(s, t.drop_last(), sep);
        assert(x.drop_last() == s + seq![sep] + t.drop_last());
        assert(x.last() == t[t.len() - 1]);
        assert(t[t.len() - 1] != sep);
        assert(t.drop_last().push(t.last()) =~= t);
        assert(p.push(t.drop_last()).update(p.len() as int, t.drop_last().push(t.last())) =~= p.push(t));
    }
}

/// The piece without a trailing carriage return.
pub open spec fn sem_cr(l: Seq<char>) -> Seq<char> {
    if l.len() > 0 && l.last() == '\r' {
        l.drop_last()
    } else {
        l
    }
}

/// The lines of `s` (`str::lines`): split at `\n` or `\r\n`; a final line ending is optional.
pub open spec fn linhas(s: Seq<char>) -> Seq<Seq<char>> {
    let p = divide(s, '\n');
    if s.len() == 0 {
        seq![]
    } else {
        let corpo = Seq::new((p.len() - 1) as nat, |i: int| sem_cr(p[i]));
        if p.last().len() == 0 {
            corpo
        } else {
            corpo.push(p.last())
        }
    }
}

/// `str::lines` on a sequence of characters.
pub fn separar_linhas(v: &[char]) -> (r: Vec<Vec<char>>)
    ensures
        vistas(r@) == linhas(v@),
{
    let partes = dividir(v, '\n');
    let ghost p = divide(v@, '\n');
    let mut r: Vec<Vec<char>> = Vec::new();
    if v.len() == 0 {
        proof { assert(vistas(r@) =~= linhas(v@)); }
        return r;
    }
    let n = partes.len();
    let mut i: usize = 0;
    while i + 1 < n
        invariant
            n == partes@.len() >= 1,
            vistas(partes@) == p,
            i + 1 <= n,
            vistas(r@) == Seq::new(i as nat, |k: int| sem_cr(p[k])),
        decreases n - i,
    {
        let l = &partes[i];
        proof { assert(l@ == p[i as int]); }
        let m = l.len();
        let peca = if m > 0 && l[m - 1] == '\r' {
            proof { assert(l@.drop_last() == l@.subrange(0, m - 1)); }
            fatia(l, 0, m - 1)
        } else {
            proof { assert(l@.subrange(0, m as int) == l@); }
            fatia(l, 0, m)
        };
        proof {
            lemma_vistas_push(r@, peca);
            assert(Seq::new((i + 1) as nat, |k: int| sem_cr(p[k])) =~= Seq::new(i as nat, |k: int| sem_cr(p[k])).push(sem_cr(p[i as int])));
        }
        r.push(peca);
        i += 1;
    }
    let ultima = &partes[n - 1];
    proof { assert(ultima@ == p.last()); }
    if ultima.len() > 0 {
        let copia = fatia(ultima, 0, ultima.len());
        proof {
            assert(ultima@.subrange(0, ultima@.len() as int) == ultima@);
            lemma_vistas_push(r@, copia);
        }
        r.push(copia);
    }
    r
}


/// `s` begins with `p`.
pub open spec fn comeca_com(s: Seq<char>, p: Seq<char>) -> bool {
    p.len() <= s.len() && s.subrange(0, p.len() as int) == p
}

/// `s` ends with `p`.
pub open spec fn termina_com(s: Seq<char>, p: Seq<char>) -> bool {
    p.len() <= s.len() && s.subrange(s.len() - p.len(), s.len() as int) == p
}

/// `p` occurs in `s` starting at index `i`.
pub open spec fn ocorre_em(s: Seq<char>, p: Seq<char>, i: int) -> bool {
    0 <= i && i + p.len() <= s.len() && s.subrange(i, i + p.len()) == p
}

/// `s` contains `p` (`str::contains`).
pub open spec fn contem(s: Seq<char>, p: Seq<char>) -> bool {
    exists|i: int| ocorre_em(s, p, i)
}

/// Whether `p` occurs in `v` at index `i`.
pub fn ocorre(v: &[char], p: &[char], i: usize) -> (r: bool)
    ensures
        r == ocorre_em(v@, p@, i as int),
{
    if i > v.len() || p.len() > v.len() - i {
        return false;
    }
    let mut k: usize = 0;
    while k < p.len()
        invariant
            i + p@.len() <= v@.len(),
            v@.len() <= usize::MAX,
            k <= p@.len(),
            forall|j: int| 0 <= j < k ==> v@[i + j] == p@[j],
        decreases p.len() - k,
    {
        if v[i + k] != p[k] {
            proof { assert(v@.subrange(i as int, i + p@.len())[k as int] != p@[k as int]); }
            return false;
        }
        k += 1;
    }
    proof { assert(v@.subrange(i as int, i + p@.len()) =~= p@); }
    true
}

/// Whether `v` begins with `p`.
pub fn comeca(v: &[char], p: &[char]) -> (r: bool)
    ensures
        r == comeca_com(v@, p@),
{
    ocorre(v, p, 0)
}

/// Whether `v` ends with `p`.
pub fn termina(v: &[char], p: &[char]) -> (r: bool)
    ensures
        r == termina_com(v@, p@),
{
    if p.len() > v.len() {
        false
    } else {
        ocorre(v, p, v.len() - p.len())
    }
}

/// Whether `v` begins with the characters of `p`.
pub fn comeca_str(v: &[char], p: &str) -> (r: bool)
    ensures
        r == comeca_com(v@, p@),
{
    let pv = caracteres(p);
    comeca(v, &pv)
}

/// `i` is the first index at which `p` occurs in `s`.
pub open spec fn eh_primeira(s: Seq<char>, p: Seq<char>, i: int) -> bool {
    ocorre_em(s, p, i) && forall|j: int| 0 <= j < i ==> !ocorre_em(s, p, j)
}

/// The first index at which `p` occurs in `s` (`str::find`).
pub open spec fn primeira(s: Seq<char>, p: Seq<char>) -> Option<int> {
    if exists|i: int| eh_primeira(s, p, i) {
        Some(choose|i: int| eh_primeira(s, p, i))
    } else {
        None
    }
}

/// The first index at which `p` occurs in `v` (`str::find`).
pub fn primeira_ocorrencia(v: &[char], p: &[char]) -> (r: Option<usize>)
    ensures
        match r {
            Some(i) => primeira(v@, p@) == Some(i as int) && ocorre_em(v@, p@, i as int),
            None => primeira(v@, p@) is None && !contem(v@, p@),
        },
{
    if p.len() == 0 {
        proof {
            assert(v@.subrange(0, 0) =~= p@);
            assert(eh_primeira(v@, p@, 0));
            let k = choose|i: int| eh_primeira(v@, p@, i);
            assert(k == 0) by {
                if k > 0 {
                    assert(!ocorre_em(v@, p@, 0));
                }
            }
        }
        return Some(0);
    }
    let mut i: usize = 0;
    while i < v.len()
        invariant
            p@.len() > 0,
            i <= v@.len(),
            forall|j: int| 0 <= j < i ==> !ocorre_em(v@, p@, j),
        decreases v.len() - i,
    {
        if ocorre(v, p, i) {
            proof {
                assert(eh_primeira(v@, p@, i as int));
                let k = choose|k: int| eh_primeira(v@, p@, k);
                assert(k == i) by {
                    if k < i {
                    } else if k > i {
                        assert(!ocorre_em(v@, p@, i as int));
                    }
                }
            }
            return Some(i);
        }
        i += 1;
    }
    proof {
        assert forall|j: int| !ocorre_em(v@, p@, j) by {
            if 0 <= j < i {
            }
        }
    }
    None
}

/// Whether `v` contains `p`.
pub fn contem_str(v: &[char], p: &str) -> (r: bool)
    ensures
        r == contem(v@, p@),
{
    let pv = caracteres(p);
    primeira_ocorrencia(v, &pv).is_some()
}

/// `i` is the last index of `c` in `s`.
pub open spec fn eh_ultima(s: Seq<char>, c: char, i: int) -> bool {
    0 <= i < s.len() && s[i] == c && forall|j: int| i < j < s.len() ==> s[j] != c
}

/// The last index of the character `c` in `s` (`str::rfind` of a character).
pub open spec fn ultima(s: Seq<char>, c: char) -> Option<int> {
    if exists|i: int| eh_ultima(s, c, i) {
        Some(choose|i: int| eh_ultima(s, c, i))
    } else {
        None
    }
}

/// The last index of the character `c` in `v` (`str::rfind` of a character).
pub fn ultima_posicao(v: &[char], c: char) -> (r: Option<usize>)
    ensures
        match r {
            Some(i) => ultima(v@, c) == Some(i as int) && eh_ultima(v@, c, i as int),
            None => ultima(v@, c) is None && forall|j: int| 0 <= j < v@.len() ==> v@[j] != c,
        },
{
    let mut i: usize = v.len();
    while i > 0
        invariant
            i <= v@.len(),
            forall|j: int| i <= j < v@.len() ==> v@[j] != c,
        decreases i,
    {
        if v[i - 1] == c {
            proof {
                assert(eh_ultima(v@, c, i - 1));
                let k = choose|k: int| eh_ultima(v@, c, k);
                assert(k == i - 1) by {
                    if k < i - 1 {
                        assert(v@[i - 1] != c);
                    }
                }
            }
            return Some(i - 1);
        }
        i -= 1;
    }
    None
}

/// An ASCII decimal digit.
pub open spec fn eh_digito(c: char) -> bool {
    '0' <= c <= '9'
}

pub open spec fn valor_digito(c: char) -> nat {
    (c as int - '0' as int) as nat
}

pub open spec fn todos_digitos(d: Seq<char>) -> bool {
    forall|i: int| 0 <= i < d.len() ==> eh_digito(#[trigger] d[i])
}

/// The number that the decimal digits `d` write.
pub open spec fn valor_decimal(d: Seq<char>) -> nat
    decreases d.len(),
{
    if d.len() == 0 {
        0
    } else {
        valor_decimal(d.drop_last()) * 10 + valor_digito(d.last())
    }
}

/// What `str::parse` gives for an unsigned integer type without bound: an optional `+`,
/// then one or more ASCII digits, read in decimal.
pub open spec fn numero_natural(s: Seq<char>) -> Option<nat> {
    let d = if s.len() > 0 && s[0] == '+' {
        s.drop_first()
    } else {
        s
    };
    if d.len() > 0 && todos_digitos(d) {
        Some(valor_decimal(d))
    } else {
        None
    }
}

/// What `str::parse` gives for an unsigned integer type whose largest value is `max`.
pub open spec fn numero_ate(s: Seq<char>, max: nat) -> Option<nat> {
    match numero_natural(s) {
        Some(n) => if n <= max {
            Some(n)
        } else {
            None
        },
        None => None,
    }
}

pub proof fn lemma_valor_prefixo(d: Seq<char>, k: int)
    requires
        0 <= k <= d.len(),
    ensures
        valor_decimal(d.take(k)) <= valor_decimal(d),
    decreases d.len(),
{
    if k < d.len() {
        lemma_valor_prefixo(d.drop_last(), k);
        assert(d.drop_last().take(k) == d.take(k));
    } else {
        assert(d.take(k) == d);
    }
}

/// `str::parse::<u64>` on a sequence of characters.
pub fn analisar_u64(v: &[char]) -> (r: Option<u64>)
    ensures
        match r {
            Some(x) => numero_ate(v@, u64::MAX as nat) == Some(x as nat),
            None => numero_ate(v@, u64::MAX as nat) is None,
        },
{
    let inicio: usize = if v.len() > 0 && v[0] == '+' { 1 } else { 0 };
    let ghost d = if v@.len() > 0 && v@[0] == '+' { v@.drop_first() } else { v@ };
    proof { assert(d == v@.subrange(inicio as int, v@.len() as int)); }
    if inicio >= v.len() {
        return None;
    }
    let mut val: u64 = 0;
    let mut i: usize = inicio;
    while i < v.len()
        invariant
            inicio <= i <= v@.len(),
            d == v@.subrange(inicio as int, v@.len() as int),
            d == (if v@.len() > 0 && v@[0] == '+' { v@.drop_first() } else { v@ }),
            d.len() > 0,
            todos_digitos(d.take(i - inicio)),
            val as nat == valor_decimal(d.take(i - inicio)),
        decreases v.len() - i,
    {
        let c = v[i];
        proof { assert(d[i - inicio] == c); }
        if !('0' <= c && c <= '9') {
            proof { assert(!eh_digito(d[i - inicio])); }
            return None;
        }
        let dg: u64 = (c as u32 - '0' as u32) as u64;
        proof {
            assert(d.take(i - inicio + 1).drop_last() == d.take(i - inicio));
            assert(d.take(i - inicio + 1).last() == c);
            assert(dg == valor_digito(c));
            assert(valor_decimal(d.take(i - inicio + 1)) == val * 10 + dg);
        }
        if val > (u64::MAX - dg) / 10 {
            proof {
                assert(val * 10 + dg > u64::MAX) by (nonlinear_arith)
                    requires val > (u64::MAX - dg) / 10, dg <= 9;
                lemma_valor_prefixo(d, i - inicio + 1);
                assert(numero_natural(v@) is Some ==> numero_natural(v@) == Some(valor_decimal(d)));
            }
            return None;
        }
        proof {
            assert(val * 10 + dg <= u64::MAX) by (nonlinear_arith)
                requires val <= (u64::MAX - dg) / 10, dg <= 9;
        }
        val = val * 10 + dg;
        proof {
            assert forall|j: int| 0 <= j < i - inicio + 1 implies eh_digito(#[trigger] d.take(i - inicio + 1)[j]) by {
                if j < i - inicio {
                    assert(d.take(i - inicio)[j] == d.take(i - inicio + 1)[j]);
                }
            }
        }
        i += 1;
    }
    proof { assert(d.take(i - inicio) == d); }
    Some(val)
}

/// `str::parse::<u8>` on a sequence of characters.
pub fn analisar_u8(v: &[char]) -> (r: Option<u8>)
    ensures
        match r {
            Some(x) => numero_ate(v@, u8::MAX as nat) == Some(x as nat),
            None => numero_ate(v@, u8::MAX as nat) is None,
        },
{
    match analisar_u64(v) {
        Some(x) => if x <= 255 { Some(x as u8) } else { None },
        None => None,
    }
}

/// `str::parse::<u16>` on a sequence of characters.
pub fn analisar_u16(v: &[char]) -> (r: Option<u16>)
    ensures
        match r {
            Some(x) => numero_ate(v@, u16::MAX as nat) == Some(x as nat),
            None => numero_ate(v@, u16::MAX as nat) is None,
        },
{
    match analisar_u64(v) {
        Some(x) => if x <= 65535 { Some(x as u16) } else { None },
        None => None,
    }
}

/// `str::parse::<u32>` on a sequence of characters.
pub fn analisar_u32(v: &[char]) -> (r: Option<u32>)
    ensures
        match r {
            Some(x) => numero_ate(v@, u32::MAX as nat) == Some(x as nat),
            None => numero_ate(v@, u32::MAX as nat) is None,
        },
{
    match analisar_u64(v) {
        Some(x) => if x <= 4294967295 { Some(x as u32) } else { None },
        None => None,
    }
}

/// The character of a decimal digit.
pub open spec fn char_digito(d: nat) -> char {
    if d == 0 { '0' } else if d == 1 { '1' } else if d == 2 { '2' } else if d == 3 { '3' }
    else if d == 4 { '4' } else if d == 5 { '5' } else if d == 6 { '6' } else if d == 7 { '7' }
    else if d == 8 { '8' } else { '9' }
}

/// `n` written in decimal without leading zeros (what `Display` prints for an unsigned integer).
pub open spec fn decimal(n: nat) -> Seq<char>
    decreases n,
{
    if n < 10 {
        seq![char_digito(n)]
    } else {
        decimal(n / 10).push(char_digito(n % 10))
    }
}

/// What `decimal` writes is a non-empty run of digits that reads back as the number.
proof fn lemma_char_digito(k: nat)
    requires
        k < 10,
    ensures
        eh_digito(char_digito(k)),
        valor_digito(char_digito(k)) == k,
{
}

pub proof fn lemma_decimal_le(n: nat)
    ensures
        decimal(n).len() > 0,
        todos_digitos(decimal(n)),
        valor_decimal(decimal(n)) == n,
    decreases n,
{
    if n < 10 {
        lemma_char_digito(n);
        assert(seq![char_digito(n)].drop_last() =~= Seq::<char>::empty());
        assert(valor_decimal(Seq::<char>::empty()) == 0);
        assert(valor_decimal(decimal(n)) == n);
    } else {
        lemma_decimal_le(n / 10);
        lemma_char_digito(n % 10);
        let d = decimal(n / 10);
        let c = char_digito(n % 10);
        assert((n / 10) * 10 + n % 10 == n) by (nonlinear_arith);
        assert(decimal(n) == d.push(c));
        assert(d.push(c).drop_last() == d);
        assert(valor_decimal(d.push(c)) == valor_decimal(d) * 10 + valor_digito(c));
        assert forall|i: int| 0 <= i < d.push(c).len() implies eh_digito(#[trigger] d.push(c)[i]) by {
            if i < d.len() {
                assert(d.push(c)[i] == d[i]);
            }
        }
    }
}

/// Reading back what `decimal` writes gives the number.
pub proof fn lemma_numero_do_decimal(n: nat, max: nat)
    requires
        n <= max,
    ensures
        numero_ate(decimal(n), max) == Some(n),
{
    lemma_decimal_le(n);
    assert(eh_digito(decimal(n)[0]));
}

/// Reading back what `decimal` writes as a signed integer gives the number, when it is in range.
pub proof fn lemma_inteiro_do_decimal(n: nat, min: int, max: int)
    requires
        min <= n <= max,
    ensures
        inteiro_entre(decimal(n), min, max) == Some(n as int),
{
    lemma_decimal_le(n);
    assert(eh_digito(decimal(n)[0]));
}

fn digito(d: u64) -> (c: char)
    requires
        d < 10,
    ensures
        c == char_digito(d as nat),
{
    if d == 0 { '0' } else if d == 1 { '1' } else if d == 2 { '2' } else if d == 3 { '3' }
    else if d == 4 { '4' } else if d == 5 { '5' } else if d == 6 { '6' } else if d == 7 { '7' }
    else if d == 8 { '8' } else { '9' }
}

/// Appends `n` written in decimal to `saida`.
pub fn escrever_decimal(n: u64, saida: &mut String)
    ensures
        final(saida)@ == old(saida)@ + decimal(n as nat),
    decreases n,
{
    if n < 10 {
        saida.push(digito(n));
        proof { assert(old(saida)@.push(char_digito(n as nat)) == old(saida)@ + seq![char_digito(n as nat)]); }
    } else {
        escrever_decimal(n / 10, saida);
        saida.push(digito(n % 10));
        proof {
            assert(old(saida)@ + decimal((n / 10) as nat) + seq![char_digito((n % 10) as nat)]
                == old(saida)@ + decimal((n / 10) as nat).push(char_digito((n % 10) as nat)));
        }
    }
}

/// `str::to_lowercase` (Unicode lowercase mapping), named: the Unicode tables are not restated here.
pub uninterp spec fn minusculas(s: Seq<char>) -> Seq<char>;

/// `str::to_uppercase` (Unicode uppercase mapping), named: the Unicode tables are not restated here.
pub uninterp spec fn maiusculas(s: Seq<char>) -> Seq<char>;

/// `char::is_alphanumeric` (Unicode `Alphabetic` or `Numeric`), named: the Unicode tables are not restated here.
pub uninterp spec fn alfanumerico(c: char) -> bool;

/// Calls `str::to_lowercase`; its result is what `minusculas` names for the argument.
#[verifier::external_body]
pub(crate) fn para_minusculas(s: &str) -> (r: String)
    ensures
        r@ == minusculas(s@),
{
    s.to_lowercase()
}

/// Calls `str::to_uppercase`; its result is what `maiusculas` names for the argument.
#[verifier::external_body]
pub(crate) fn para_maiusculas(s: &str) -> (r: String)
    ensures
        r@ == maiusculas(s@),
{
    s.to_uppercase()
}

/// Calls `char::is_alphanumeric`; its result is what `alfanumerico` names for the argument.
#[verifier::external_body]
pub(crate) fn eh_alfanumerico(c: char) -> (r: bool)
    ensures
        r == alfanumerico(c),
{
    c.is_alphanumeric()
}


/// Whether `a` and `b` hold the same characters.
pub fn iguais(a: &[char], b: &[char]) -> (r: bool)
    ensures
        r == (a@ == b@),
{
    if a.len() != b.len() {
        return false;
    }
    let r = ocorre(a, b, 0);
    proof {
        if r {
            assert(a@.subrange(0, b@.len() as int) == a@);
        } else {
            assert(a@.subrange(0, b@.len() as int) == a@);
        }
    }
    r
}

/// Whether two string slices hold the same characters (`==` on `str`).
pub fn str_igual(a: &str, b: &str) -> (r: bool)
    ensures
        r == (a@ == b@),
{
    let av = caracteres(a);
    let bv = caracteres(b);
    iguais(&av, &bv)
}

/// `a` comes before or equals `b` in the order of `str`'s `Ord`: lexicographic by code point,
/// which is the order of their UTF-8 bytes.
pub open spec fn lex_menor_igual(a: Seq<char>, b: Seq<char>) -> bool
    decreases a.len(),
{
    if a.len() == 0 {
        true
    } else if b.len() == 0 {
        false
    } else if a[0] != b[0] {
        a[0] < b[0]
    } else {
        lex_menor_igual(a.drop_first(), b.drop_first())
    }
}

/// Any two texts are ordered one way or the other.
pub proof fn lemma_lex_total(a: Seq<char>, b: Seq<char>)
    ensures
        lex_menor_igual(a, b) || lex_menor_igual(b, a),
    decreases a.len(),
{
    if a.len() > 0 && b.len() > 0 && a[0] == b[0] {
        lemma_lex_total(a.drop_first(), b.drop_first());
    }
}

/// The order of texts is transitive.
pub proof fn lemma_lex_transitivo(a: Seq<char>, b: Seq<char>, c: Seq<char>)
    requires
        lex_menor_igual(a, b),
        lex_menor_igual(b, c),
    ensures
        lex_menor_igual(a, c),
    decreases a.len(),
{
    if a.len() > 0 && a[0] == b[0] && b[0] == c[0] {
        lemma_lex_transitivo(a.drop_first(), b.drop_first(), c.drop_first());
    }
}

/// Whether `a` comes before or equals `b` in the order of `str`.
pub fn menor_igual(a: &[char], b: &[char]) -> (r: bool)
    ensures
        r == lex_menor_igual(a@, b@),
{
    let mut i: usize = 0;
    proof {
        assert(a@.skip(0) == a@);
        assert(b@.skip(0) == b@);
    }
    while i < a.len() && i < b.len() && a[i] == b[i]
        invariant
            i <= a@.len(),
            i <= b@.len(),
            lex_menor_igual(a@, b@) == lex_menor_igual(a@.skip(i as int), b@.skip(i as int)),
        decreases a.len() - i,
    {
        proof {
            assert(a@.skip(i as int).drop_first() == a@.skip(i + 1));
            assert(b@.skip(i as int).drop_first() == b@.skip(i + 1));
        }
        i += 1;
    }
    proof {
        if i < a@.len() {
            assert(a@.skip(i as int)[0] == a@[i as int]);
        }
        if i < b@.len() {
            assert(b@.skip(i as int)[0] == b@[i as int]);
        }
    }
    if i == a.len() {
        true
    } else if i == b.len() {
        false
    } else {
        a[i] < b[i]
    }
}

/// What `str::parse` gives for a signed integer type between `min` and `max`: an optional
/// `+` or `-`, then one or more ASCII digits, read in decimal.
pub open spec fn inteiro_entre(s: Seq<char>, min: int, max: int) -> Option<int> {
    let negativo = s.len() > 0 && s[0] == '-';
    let d = if s.len() > 0 && (s[0] == '+' || s[0] == '-') {
        s.drop_first()
    } else {
        s
    };
    if d.len() > 0 && todos_digitos(d) {
        let v: int = if negativo { -(valor_decimal(d) as int) } else { valor_decimal(d) as int };
        if min <= v <= max {
            Some(v)
        } else {
            None
        }
    } else {
        None
    }
}

/// `str::parse::<i32>` on a sequence of characters.
pub fn analisar_i32(v: &[char]) -> (r: Option<i32>)
    ensures
        match r {
            Some(x) => inteiro_entre(v@, i32::MIN as int, i32::MAX as int) == Some(x as int),
            None => inteiro_entre(v@, i32::MIN as int, i32::MAX as int) is None,
        },
{
    if v.len() > 0 && v[0] == '-' {
        let resto = fatia(v, 1, v.len());
        proof { assert(resto@ == v@.drop_first()); }
        if resto.len() > 0 && resto[0] == '+' {
            proof { assert(!eh_digito(v@.drop_first()[0])); }
            return None;
        }
        proof { assert(numero_natural(resto@) is Some ==> numero_natural(resto@) == Some(valor_decimal(v@.drop_first()))); }
        match analisar_u64(&resto) {
            Some(x) => if x <= 2147483648 {
                proof { assert(-(x as int) >= i32::MIN); }
                Some((0 - (x as i64)) as i32)
            } else {
                None
            },
            None => None,
        }
    } else {
        proof {
            if v@.len() > 0 && v@[0] == '+' && v@.len() > 1 && v@[1] == '+' {
                assert(!eh_digito(v@.drop_first()[0]));
            }
        }
        match analisar_u64(v) {
            Some(x) => if x <= 2147483647 { Some(x as i32) } else { None },
            None => None,
        }
    }
}

/// The words joined with `sep` between them (`[&str]::join`).
pub open spec fn junta(ws: Seq<Seq<char>>, sep: Seq<char>) -> Seq<char>
    decreases ws.len(),
{
    if ws.len() == 0 {
        seq![]
    } else if ws.len() == 1 {
        ws[0]
    } else {
        junta(ws.drop_last(), sep) + sep + ws.last()
    }
}

/// Joins `ws[de..]` with single spaces.
pub fn juntar_com_espaco(ws: &Vec<Vec<char>>, de: usize) -> (r: Vec<char>)
    requires
        de <= ws@.len(),
    ensures
        r@ == junta(vistas(ws@).skip(de as int), seq![' ']),
{
    let mut r: Vec<char> = Vec::new();
    let mut i = de;
    proof { assert(vistas(ws@).skip(de as int).take(0) =~= seq![]); }
    while i < ws.len()
        invariant
            de <= i <= ws@.len(),
            r@ == junta(vistas(ws@).skip(de as int).take(i - de), seq![' ']),
        decreases ws.len() - i,
    {
        let ghost antes = vistas(ws@).skip(de as int).take(i - de);
        let ghost depois = vistas(ws@).skip(de as int).take(i - de + 1);
        proof {
            assert(depois.drop_last() == antes);
            assert(depois.last() == ws@[i as int]@);
        }
        if i > de {
            r.push(' ');
        }
        let w = &ws[i];
        let mut k: usize = 0;
        let ghost base = r@;
        while k < w.len()
            invariant
                k <= w@.len(),
                r@ == base + w@.take(k as int),
            decreases w.len() - k,
        {
            r.push(w[k]);
            proof { assert(w@.take(k + 1) == w@.take(k as int).push(w@[k as int])); }
            k += 1;
        }
        proof {
            assert(w@.take(w@.len() as int) == w@);
            if i > de {
                assert(r@ == junta(antes, seq![' ']) + seq![' '] + w@);
            } else {
                assert(r@ =~= w@);
            }
        }
        i += 1;
    }
    proof { assert(vistas(ws@).skip(de as int).take(i - de) == vistas(ws@).skip(de as int)); }
    r
}


/// How many bytes `c` takes in UTF-8 (`char::len_utf8`).
pub open spec fn bytes_do_char(c: char) -> nat {
    if c <= '\u{7F}' {
        1
    } else if c <= '\u{7FF}' {
        2
    } else if c <= '\u{FFFF}' {
        3
    } else {
        4
    }
}

/// How many bytes `s` takes in UTF-8 (what `str::len` returns).
pub open spec fn bytes_utf8(s: Seq<char>) -> nat
    decreases s.len(),
{
    if s.len() == 0 {
        0
    } else {
        bytes_utf8(s.drop_last()) + bytes_do_char(s.last())
    }
}

/// Whether `v` takes fewer than `n` bytes in UTF-8.
pub fn menos_bytes_que(v: &[char], n: usize) -> (r: bool)
    ensures
        r == (bytes_utf8(v@) < n),
{
    if n == 0 {
        return false;
    }
    let mut total: usize = 0;
    let mut i: usize = 0;
    proof { assert(v@.take(0) =~= seq![]); }
    while i < v.len()
        invariant
            i <= v@.len(),
            total < n,
            total == bytes_utf8(v@.take(i as int)),
        decreases v.len() - i,
    {
        let c = v[i];
        let w: usize = if c <= '\u{7F}' { 1 } else if c <= '\u{7FF}' { 2 } else if c <= '\u{FFFF}' { 3 } else { 4 };
        proof {
            assert(v@.take(i + 1).drop_last() == v@.take(i as int));
            assert(v@.take(i + 1).last() == c);
        }
        if w >= n - total {
            proof { lemma_bytes_prefixo(v@, i + 1); }
            return false;
        }
        total = total + w;
        i += 1;
    }
    proof { assert(v@.take(i as int) == v@); }
    true
}

pub proof fn lemma_bytes_prefixo(s: Seq<char>, k: int)
    requires
        0 <= k <= s.len(),
    ensures
        bytes_utf8(s.take(k)) <= bytes_utf8(s),
    decreases s.len(),
{
    if k < s.len() {
        lemma_bytes_prefixo(s.drop_last(), k);
        assert(s.drop_last().take(k) == s.take(k));
    } else {
        assert(s.take(k) == s);
    }
}


/// `s` without the prefix `p` when it begins with it (`str::strip_prefix`).
pub open spec fn sem_prefixo(s: Seq<char>, p: Seq<char>) -> Option<Seq<char>> {
    if comeca_com(s, p) {
        Some(s.skip(p.len() as int))
    } else {
        None
    }
}

/// A text that neither begins nor ends with whitespace is its own trim.
pub proof fn lemma_apara_sem_espacos_nas_pontas(s: Seq<char>)
    requires
        s.len() > 0,
        !eh_espaco(s[0]),
        !eh_espaco(s.last()),
    ensures
        apara(s) == s,
{
}

/// A space followed by a non-empty run without whitespace is one word.
pub proof fn lemma_palavra_unica(d: Seq<char>)
    requires
        d.len() > 0,
        forall|i: int| 0 <= i < d.len() ==> !eh_espaco(#[trigger] d[i]),
    ensures
        palavras(seq![' '] + d) == seq![d],
    decreases d.len(),
{
    let s = seq![' '] + d;
    assert(s.last() == d.last());
    if d.len() == 1 {
        assert(s.drop_last() =~= seq![' ']);
        assert(seq![' '].drop_last() =~= Seq::<char>::empty());
        assert(palavras(seq![' ']) == palavras(Seq::<char>::empty()));
        assert(s[s.len() - 2] == ' ');
        assert(seq![d.last()] =~= d);
    } else {
        let e = d.drop_last();
        lemma_palavra_unica(e);
        assert(s.drop_last() =~= seq![' '] + e);
        assert(s[s.len() - 2] == d[d.len() - 2]);
        assert(e.push(d.last()) =~= d);
        assert(seq![e].update(0, e.push(d.last())) =~= seq![d]);
    }
}

/// A text that ends in a character other than whitespace has at least one word.
pub proof fn lemma_palavras_nao_vazias(s: Seq<char>)
    requires
        s.len() > 0,
        !eh_espaco(s.last()),
    ensures
        palavras(s).len() > 0,
    decreases s.len(),
{
    if s.len() >= 2 && !eh_espaco(s[s.len() - 2]) {
        lemma_palavras_nao_vazias(s.drop_last());
    }
}

/// A space splits words: the words of `s`, a space and `t` are those of `s` and then those of `t`.
pub proof fn lemma_palavras_junta(s: Seq<char>, t: Seq<char>)
    ensures
        palavras(s + seq![' '] + t) == palavras(s) + palavras(t),
    decreases t.len(),
{
    let x = s + seq![' '] + t;
    if t.len() == 0 {
        assert(x.drop_last() =~= s);
        assert(palavras(t) =~= Seq::<Seq<char>>::empty());
        assert(palavras(s) + palavras(t) =~= palavras(s));
    } else {
        let u = t.drop_last();
        let c = t.last();
        lemma_palavras_junta(s, u);
        assert(x.drop_last() =~= s + seq![' '] + u);
        assert(x.last() == c);
        let p = palavras(s);
        let q = palavras(u);
        if eh_espaco(c) {
        } else if t.len() >= 2 && !eh_espaco(t[t.len() - 2]) {
            assert(x[x.len() - 2] == t[t.len() - 2]);
            assert(u.last() == t[t.len() - 2]);
            lemma_palavras_nao_vazias(u);
            assert((p + q).update((p + q).len() - 1, (p + q).last().push(c)) =~= p + q.update(q.len() - 1, q.last().push(c)));
        } else {
            if t.len() >= 2 {
                assert(x[x.len() - 2] == t[t.len() - 2]);
            } else {
                assert(x[x.len() - 2] == ' ');
            }
            assert((p + q).push(seq![c]) =~= p + q.push(seq![c]));
        }
    }
}

/// A non-empty run without whitespace is a single word.
pub proof fn lemma_uma_palavra(d: Seq<char>)
    requires
        d.len() > 0,
        forall|i: int| 0 <= i < d.len() ==> !eh_espaco(#[trigger] d[i]),
    ensures
        palavras(d) == seq![d],
    decreases d.len(),
{
    assert(!eh_espaco(d[d.len() - 1]));
    if d.len() == 1 {
        assert(d.drop_last() =~= Seq::<char>::empty());
        assert(palavras(d.drop_last()) =~= Seq::<Seq<char>>::empty());
        assert(seq![d.last()] =~= d);
    } else {
        let e = d.drop_last();
        assert(!eh_espaco(d[d.len() - 2]));
        assert forall|i: int| 0 <= i < e.len() implies !eh_espaco(#[trigger] e[i]) by {
            assert(e[i] == d[i]);
        }
        lemma_uma_palavra(e);
        assert(d[d.len() - 2] == e.last());
        assert(e.push(d.last()) =~= d);
        assert(seq![e].update(0, e.push(d.last())) =~= seq![d]);
    }
}

/// A column of command output: a non-empty run without whitespace.
pub open spec fn eh_palavra(d: Seq<char>) -> bool {
    d.len() > 0 && forall|i: int| 0 <= i < d.len() ==> !eh_espaco(#[trigger] d[i])
}

/// Words joined by single spaces split back into the same words.
pub proof fn lemma_palavras_de_junta(ws: Seq<Seq<char>>)
    requires
        forall|i: int| 0 <= i < ws.len() ==> eh_palavra(#[trigger] ws[i]),
    ensures
        palavras(junta(ws, seq![' '])) == ws,
    decreases ws.len(),
{
    if ws.len() == 0 {
        assert(palavras(Seq::<char>::empty()) =~= ws);
    } else if ws.len() == 1 {
        assert(eh_palavra(ws[0]));
        lemma_uma_palavra(ws[0]);
        assert(seq![ws[0]] =~= ws);
    } else {
        let d = ws.drop_last();
        assert forall|i: int| 0 <= i < d.len() implies eh_palavra(#[trigger] d[i]) by {
            assert(d[i] == ws[i]);
        }
        lemma_palavras_de_junta(d);
        assert(eh_palavra(ws[ws.len() - 1]));
        lemma_uma_palavra(ws.last());
        lemma_palavras_junta(junta(d, seq![' ']), ws.last());
        assert(d + seq![ws.last()] =~= ws);
    }
}

/// Taking the prefix `p` off `p + v` leaves `v`.
pub proof fn lemma_sem_prefixo_junta(p: Seq<char>, v: Seq<char>)
    ensures
        sem_prefixo(p + v, p) == Some(v),
{
    assert((p + v).subrange(0, p.len() as int) =~= p);
    assert((p + v).skip(p.len() as int) =~= v);
}

/// `str::strip_prefix` on a sequence of characters.
pub fn tirar_prefixo(v: &[char], p: &str) -> (r: Option<Vec<char>>)
    ensures
        match r {
            Some(x) => sem_prefixo(v@, p@) == Some(x@),
            None => sem_prefixo(v@, p@) is None,
        },
{
    let pv = caracteres(p);
    if comeca(v, &pv) {
        Some(fatia(v, pv.len(), v.len()))
    } else {
        None
    }
}

/// The first result that `f` gives for the lines, from the first line on.
pub open spec fn primeiro_resultado(ls: Seq<Seq<char>>, f: spec_fn(Seq<char>) -> Option<Seq<char>>) -> Option<Seq<char>>
    decreases ls.len(),
{
    if ls.len() == 0 {
        None
    } else {
        match f(ls[0]) {
            Some(x) => Some(x),
            None => primeiro_resultado(ls.drop_first(), f),
        }
    }
}

pub proof fn lemma_primeiro_resultado_passo(ls: Seq<Seq<char>>, f: spec_fn(Seq<char>) -> Option<Seq<char>>, i: int)
    requires
        0 <= i < ls.len(),
    ensures
        primeiro_resultado(ls.skip(i), f) == (match f(ls[i]) {
            Some(x) => Some(x),
            None => primeiro_resultado(ls.skip(i + 1), f),
        }),
{
    assert(ls.skip(i)[0] == ls[i]);
    assert(ls.skip(i).drop_first() == ls.skip(i + 1));
}


/// The views of a sequence of strings.
pub open spec fn vistas_textos(r: Seq<String>) -> Seq<Seq<char>> {
    Seq::new(r.len(), |i: int| r[i]@)
}

/// `s` with `x` added at the end unless it is there already.
pub open spec fn com_unico(s: Seq<Seq<char>>, x: Seq<char>) -> Seq<Seq<char>> {
    if s.contains(x) {
        s
    } else {
        s.push(x)
    }
}

/// Adds `x` at the end of `lista` unless it is there already.
pub fn acrescentar_unico(lista: &mut Vec<String>, x: &[char])
    ensures
        vistas_textos(final(lista)@) == com_unico(vistas_textos(old(lista)@), x@),
{
    let mut i: usize = 0;
    let ghost antes = vistas_textos(lista@);
    while i < lista.len()
        invariant
            i <= lista@.len(),
            antes == vistas_textos(lista@),
            forall|k: int| 0 <= k < i ==> lista@[k]@ != x@,
        decreases lista.len() - i,
    {
        let e = caracteres(lista[i].as_str());
        if iguais(&e, x) {
            proof { assert(antes[i as int] == x@); }
            return;
        }
        i += 1;
    }
    proof {
        assert(!antes.contains(x@)) by {
            if antes.contains(x@) {
                let k = choose|k: int| 0 <= k < antes.len() && antes[k] == x@;
                assert(lista@[k]@ == x@);
            }
        }
    }
    lista.push(texto_de(x));
    proof { assert(vistas_textos(lista@) =~= antes.push(x@)); }
}

/// The last result that `f` gives for the lines, from the last line back.
pub open spec fn ultimo_resultado<T>(ls: Seq<Seq<char>>, f: spec_fn(Seq<char>) -> Option<T>) -> Option<T>
    decreases ls.len(),
{
    if ls.len() == 0 {
        None
    } else {
        match f(ls.last()) {
            Some(x) => Some(x),
            None => ultimo_resultado(ls.drop_last(), f),
        }
    }
}


/// An ASCII hexadecimal digit.
pub open spec fn eh_hex(c: char) -> bool {
    ('0' <= c <= '9') || ('a' <= c <= 'f') || ('A' <= c <= 'F')
}

pub open spec fn valor_hex(c: char) -> nat {
    if '0' <= c <= '9' {
        (c as int - '0' as int) as nat
    } else if 'a' <= c <= 'f' {
        (c as int - 'a' as int + 10) as nat
    } else {
        (c as int - 'A' as int + 10) as nat
    }
}

pub open spec fn todos_hex(d: Seq<char>) -> bool {
    forall|i: int| 0 <= i < d.len() ==> eh_hex(#[trigger] d[i])
}

/// The number that the hexadecimal digits `d` write.
pub open spec fn valor_hexadecimal(d: Seq<char>) -> nat
    decreases d.len(),
{
    if d.len() == 0 {
        0
    } else {
        valor_hexadecimal(d.drop_last()) * 16 + valor_hex(d.last())
    }
}

/// What `u32::from_str_radix(s, 16)` gives: an optional `+`, then one or more hexadecimal
/// digits (either case), the value at most `u32::MAX`.
pub open spec fn numero_hex_u32(s: Seq<char>) -> Option<nat> {
    let d = if s.len() > 0 && s[0] == '+' {
        s.drop_first()
    } else {
        s
    };
    if d.len() > 0 && todos_hex(d) && valor_hexadecimal(d) <= u32::MAX {
        Some(valor_hexadecimal(d))
    } else {
        None
    }
}

pub proof fn lemma_hex_prefixo(d: Seq<char>, k: int)
    requires
        0 <= k <= d.len(),
    ensures
        valor_hexadecimal(d.take(k)) <= valor_hexadecimal(d),
    decreases d.len(),
{
    if k < d.len() {
        lemma_hex_prefixo(d.drop_last(), k);
        assert(d.drop_last().take(k) == d.take(k));
    } else {
        assert(d.take(k) == d);
    }
}

/// `u32::from_str_radix(_, 16)` on a sequence of characters.
pub fn analisar_hex_u32(v: &[char]) -> (r: Option<u32>)
    ensures
        match r {
            Some(x) => numero_hex_u32(v@) == Some(x as nat),
            None => numero_hex_u32(v@) is None,
        },
{
    let inicio: usize = if v.len() > 0 && v[0] == '+' { 1 } else { 0 };
    let ghost d = if v@.len() > 0 && v@[0] == '+' { v@.drop_first() } else { v@ };
    proof { assert(d == v@.subrange(inicio as int, v@.len() as int)); }
    if inicio >= v.len() {
        return None;
    }
    let mut val: u64 = 0;
    let mut i: usize = inicio;
    while i < v.len()
        invariant
            inicio <= i <= v@.len(),
            d == v@.subrange(inicio as int, v@.len() as int),
            d == (if v@.len() > 0 && v@[0] == '+' { v@.drop_first() } else { v@ }),
            d.len() > 0,
            todos_hex(d.take(i - inicio)),
            val as nat == valor_hexadecimal(d.take(i - inicio)),
            val <= u32::MAX,
        decreases v.len() - i,
    {
        let c = v[i];
        proof { assert(d[i - inicio] == c); }
        let dg: u64 = if '0' <= c && c <= '9' {
            (c as u32 - '0' as u32) as u64
        } else if 'a' <= c && c <= 'f' {
            (c as u32 - 'a' as u32 + 10) as u64
        } else if 'A' <= c && c <= 'F' {
            (c as u32 - 'A' as u32 + 10) as u64
        } else {
            proof { assert(!eh_hex(d[i - inicio])); }
            return None;
        };
        proof {
            assert(d.take(i - inicio + 1).drop_last() == d.take(i - inicio));
            assert(d.take(i - inicio + 1).last() == c);
            assert(dg == valor_hex(c));
            assert(valor_hexadecimal(d.take(i - inicio + 1)) == val * 16 + dg);
        }
        if val > (0xFFFF_FFFFu64 - dg) / 16 {
            proof {
                assert(val * 16 + dg > u32::MAX) by (nonlinear_arith)
                    requires val > (0xFFFF_FFFFu64 - dg) / 16, dg <= 15;
                lemma_hex_prefixo(d, i - inicio + 1);
            }
            return None;
        }
        proof {
            assert(val * 16 + dg <= u32::MAX) by (nonlinear_arith)
                requires val <= (0xFFFF_FFFFu64 - dg) / 16, dg <= 15;
        }
        val = val * 16 + dg;
        proof {
            assert forall|j: int| 0 <= j < i - inicio + 1 implies eh_hex(#[trigger] d.take(i - inicio + 1)[j]) by {
                if j < i - inicio {
                    assert(d.take(i - inicio)[j] == d.take(i - inicio + 1)[j]);
                }
            }
        }
        i += 1;
    }
    proof { assert(d.take(i - inicio) == d); }
    Some(val as u32)
}

/// The second piece of `s` split at `pat` (`s.split(pat).nth(1)`): what lies between the first
/// occurrence of `pat` and the next one (or the end); none when `pat` does not occur.
pub open spec fn segundo_pedaco(s: Seq<char>, pat: Seq<char>) -> Option<Seq<char>> {
    match primeira(s, pat) {
        Some(a) => {
            let resto = s.skip(a + pat.len());
            match primeira(resto, pat) {
                Some(b) => Some(resto.take(b)),
                None => Some(resto),
            }
        },
        None => None,
    }
}

/// `s.split(pat).nth(1)` on a sequence of characters, for a non-empty pattern.
pub fn segundo_pedaco_de(v: &[char], pat: &[char]) -> (r: Option<Vec<char>>)
    requires
        pat@.len() > 0,
    ensures
        match r {
            Some(x) => segundo_pedaco(v@, pat@) == Some(x@),
            None => segundo_pedaco(v@, pat@) is None,
        },
{
    let n = v.len();
    match primeira_ocorrencia(v, pat) {
        Some(a) => {
            proof { assert(a + pat@.len() <= n); }
            let resto = fatia(v, a + pat.len(), n);
            match primeira_ocorrencia(&resto, pat) {
                Some(b) => Some(fatia(&resto, 0, b)),
                None => {
                    proof { assert(resto@.subrange(0, resto@.len() as int) == resto@); }
                    Some(fatia(&resto, 0, resto.len()))
                },
            }
        },
        None => None,
    }
}

/// `s` without the leading and trailing `(` and `)` (`trim_matches` of those characters).
pub open spec fn sem_parenteses(s: Seq<char>) -> Seq<char>
    decreases s.len(),
{
    if s.len() > 0 && (s[0] == '(' || s[0] == ')') {
        sem_parenteses(s.drop_first())
    } else if s.len() > 0 && (s.last() == '(' || s.last() == ')') {
        sem_parenteses(s.drop_last())
    } else {
        s
    }
}

/// `trim_matches(|c| c == '(' || c == ')')` on a sequence of characters.
pub fn tirar_parenteses(v: &[char]) -> (r: Vec<char>)
    ensures
        r@ == sem_parenteses(v@),
{
    let mut a: usize = 0;
    let mut b: usize = v.len();
    proof { assert(v@.subrange(0, v@.len() as int) == v@); }
    while a < b && (v[a] == '(' || v[a] == ')')
        invariant
            a <= b == v@.len(),
            sem_parenteses(v@) == sem_parenteses(v@.subrange(a as int, b as int)),
        decreases b - a,
    {
        proof { assert(v@.subrange(a as int, b as int).drop_first() == v@.subrange(a + 1, b as int)); }
        a += 1;
    }
    while a < b && (v[b - 1] == '(' || v[b - 1] == ')')
        invariant
            a <= b <= v@.len(),
            a < b ==> !(v@[a as int] == '(' || v@[a as int] == ')'),
            sem_parenteses(v@) == sem_parenteses(v@.subrange(a as int, b as int)),
        decreases b - a,
    {
        proof {
            assert(v@.subrange(a as int, b as int)[0] == v@[a as int]);
            assert(v@.subrange(a as int, b as int).drop_last() == v@.subrange(a as int, b - 1));
        }
        b -= 1;
    }
    proof {
        if a < b {
            assert(v@.subrange(a as int, b as int)[0] == v@[a as int]);
            assert(v@.subrange(a as int, b as int).last() == v@[b - 1]);
        }
    }
    fatia(v, a, b)
}


/// The text of an optional string, or the empty text.
pub open spec fn texto_ou_vazio(o: Option<String>) -> Seq<char> {
    match o {
        Some(s) => s@,
        None => Seq::empty(),
    }
}

/// The string, or an empty one.
pub fn texto_ou_vazio_de(o: Option<String>) -> (r: String)
    ensures
        r@ == texto_ou_vazio(o),
{
    match o {
        Some(s) => s,
        None => String::new(),
    }
}

} // verus!
