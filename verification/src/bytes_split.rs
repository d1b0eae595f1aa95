use vstd::prelude::*;

verus! {

/// `n` occurs in `s` at index `i`.
pub open spec fn occurs_at(s: Seq<u8>, n: Seq<u8>, i: int) -> bool {
    &&& 0 <= i
    &&& i + n.len() <= s.len()
    &&& s.subrange(i, i + n.len()) == n
}

/// The first index at or after `i` where `n` occurs in `s`.
pub open spec fn find_from(s: Seq<u8>, n: Seq<u8>, i: nat) -> Option<nat>
    decreases s.len() + 1 - i,
{
    if i + n.len() > s.len() {
        None
    } else if occurs_at(s, n, i as int) {
        Some(i)
    } else {
        find_from(s, n, i + 1)
    }
}

/// The index of the first occurrence of `n` in `s`.
pub open spec fn first_occurrence(s: Seq<u8>, n: Seq<u8>) -> Option<nat> {
    find_from(s, n, 0)
}

/// `find_from` gives the least index at or after `i` where `n` occurs.
pub proof fn lemma_find_from(s: Seq<u8>, n: Seq<u8>, i: nat)
    ensures
        match find_from(s, n, i) {
            Some(k) => {
                &&& i <= k
                &&& occurs_at(s, n, k as int)
                &&& forall|j: int| i <= j < k ==> !occurs_at(s, n, j)
            },
            None => forall|j: int| i <= j ==> !occurs_at(s, n, j),
        },
    decreases s.len() + 1 - i,
{
    if i + n.len() > s.len() {
    } else if occurs_at(s, n, i as int) {
    } else {
        lemma_find_from(s, n, i + 1);
    }
}

/// `first_occurrence` is the least index where `n` occurs, if any.
pub proof fn lemma_first_occurrence(s: Seq<u8>, n: Seq<u8>)
    ensures
        match first_occurrence(s, n) {
            Some(k) => {
                &&& occurs_at(s, n, k as int)
                &&& forall|j: int| 0 <= j < k ==> !occurs_at(s, n, j)
            },
            None => forall|j: int| !occurs_at(s, n, j),
        },
{
    lemma_find_from(s, n, 0);
}

/// The pieces of `s` between the successive, non-overlapping occurrences of `n`,
/// scanning from the left. The last piece is what follows the last occurrence; it is
/// empty when `s` ends with `n`.
pub open spec fn split_on(s: Seq<u8>, n: Seq<u8>) -> Seq<Seq<u8>>
    decreases s.len(),
{
    if n.len() == 0 {
        seq![s]
    } else {
        match first_occurrence(s, n) {
            Some(k) => {
                proof {
                    lemma_first_occurrence(s, n);
                }
                seq![s.take(k as int)] + split_on(s.skip((k + n.len()) as int), n)
            },
            None => seq![s],
        }
    }
}

/// The pieces joined back together, with `sep` between each two of them.
pub open spec fn join_with<A>(parts: Seq<Seq<A>>, sep: Seq<A>) -> Seq<A>
    decreases parts.len(),
{
    if parts.len() == 0 {
        Seq::empty()
    } else if parts.len() == 1 {
        parts[0]
    } else {
        parts[0] + sep + join_with(parts.drop_first(), sep)
    }
}

/// Joining one more part adds the separator and that part at the end.
pub proof fn lemma_join_push<A>(parts: Seq<Seq<A>>, x: Seq<A>, sep: Seq<A>)
    requires
        parts.len() >= 1,
    ensures
        join_with(parts.push(x), sep) == join_with(parts, sep) + sep + x,
    decreases parts.len(),
{
    let p2 = parts.push(x);
    if parts.len() == 1 {
        assert(p2.drop_first() =~= seq![x]);
        assert(join_with(seq![x], sep) == x);
    } else {
        lemma_join_push(parts.drop_first(), x, sep);
        assert(p2.drop_first() =~= parts.drop_first().push(x));
        assert(join_with(p2, sep) == p2[0] + sep + join_with(p2.drop_first(), sep));
        assert(join_with(parts, sep) == parts[0] + sep + join_with(parts.drop_first(), sep));
        assert(join_with(p2, sep) =~= join_with(parts, sep) + sep + x);
    }
}

/// Splitting never yields an empty list: there is always a last piece.
pub proof fn lemma_split_nonempty(s: Seq<u8>, n: Seq<u8>)
    ensures
        split_on(s, n).len() >= 1,
    decreases s.len(),
{
    if n.len() > 0 {
        lemma_first_occurrence(s, n);
        if let Some(k) = first_occurrence(s, n) {
            lemma_split_nonempty(s.skip((k + n.len()) as int), n);
        }
    }
}

/// Joining the pieces with the separator gives back the input: splitting loses no
/// byte and invents none.
pub proof fn lemma_split_join(s: Seq<u8>, n: Seq<u8>)
    requires
        n.len() > 0,
    ensures
        join_with(split_on(s, n), n) == s,
    decreases s.len(),
{
    lemma_first_occurrence(s, n);
    match first_occurrence(s, n) {
        Some(k) => {
            let rest = s.skip((k + n.len()) as int);
            lemma_split_join(rest, n);
            lemma_split_nonempty(rest, n);
            let parts = split_on(s, n);
            assert(parts.drop_first() =~= split_on(rest, n));
            assert(parts[0] == s.take(k as int));
            assert(s =~= s.take(k as int) + n + rest);
        },
        None => {},
    }
}

/// No piece holds the separator.
pub proof fn lemma_split_pieces_free(s: Seq<u8>, n: Seq<u8>)
    requires
        n.len() > 0,
    ensures
        forall|p: int, j: int| 0 <= p < split_on(s, n).len() ==> !#[trigger] occurs_at(split_on(s, n)[p], n, j),
    decreases s.len(),
{
    lemma_first_occurrence(s, n);
    match first_occurrence(s, n) {
        Some(k) => {
            let rest = s.skip((k + n.len()) as int);
            lemma_split_pieces_free(rest, n);
            let parts = split_on(s, n);
            assert forall|p: int, j: int| 0 <= p < parts.len() implies !#[trigger] occurs_at(parts[p], n, j) by {
                if p == 0 {
                    if occurs_at(parts[0], n, j) {
                        assert(s.take(k as int).subrange(j, j + n.len()) =~= s.subrange(j, j + n.len()));
                        assert(occurs_at(s, n, j));
                    }
                } else {
                    assert(parts[p] == split_on(rest, n)[p - 1]);
                }
            }
        },
        None => {},
    }
}

/// `k` is the first index where `n` occurs in `s`.
proof fn lemma_first_occurrence_is(s: Seq<u8>, n: Seq<u8>, k: int)
    requires
        occurs_at(s, n, k),
        forall|j: int| 0 <= j < k ==> !occurs_at(s, n, j),
    ensures
        first_occurrence(s, n) == Some(k as nat),
{
    lemma_first_occurrence(s, n);
    match first_occurrence(s, n) {
        Some(f) => {
            if f < k {
                assert(!occurs_at(s, n, f as int));
            } else if f > k {
                assert(occurs_at(s, n, k));
            }
        },
        None => {
            assert(occurs_at(s, n, k));
        },
    }
}

/// Splitting undoes joining: when each part but the last is followed by its first
/// occurrence of `n` only at the separator, and the last part holds no `n`, splitting
/// the joined parts gives back exactly the parts.
pub proof fn lemma_join_split(parts: Seq<Seq<u8>>, n: Seq<u8>)
    requires
        n.len() > 0,
        parts.len() >= 1,
        forall|i: int| 0 <= i < parts.len() - 1 ==> first_occurrence(#[trigger] parts[i] + n, n)
            == Some(parts[i].len()),
        forall|j: int| !occurs_at(parts.last(), n, j),
    ensures
        split_on(join_with(parts, n), n) == parts,
    decreases parts.len(),
{
    if parts.len() == 1 {
        assert(parts.last() == parts[0]);
        lemma_first_occurrence(parts[0], n);
        if let Some(f) = first_occurrence(parts[0], n) {
            assert(!occurs_at(parts.last(), n, f as int));
        }
        assert(split_on(parts[0], n) =~= parts);
    } else {
        let p = parts[0];
        let rest = parts.drop_first();
        let k = p.len() as int;
        let s = join_with(parts, n);
        assert(s == p + n + join_with(rest, n));
        assert(first_occurrence(p + n, n) == Some(p.len()));
        lemma_first_occurrence(p + n, n);
        assert forall|j: int| 0 <= j < k implies !occurs_at(s, n, j) by {
            if occurs_at(s, n, j) {
                assert(s.subrange(j, j + n.len()) =~= (p + n).subrange(j, j + n.len()));
                assert(occurs_at(p + n, n, j));
            }
        }
        assert(s.subrange(k, k + n.len()) =~= n);
        lemma_first_occurrence_is(s, n, k);
        assert forall|i: int| 0 <= i < rest.len() - 1 implies first_occurrence(#[trigger] rest[i] + n, n)
            == Some(rest[i].len()) by {
            assert(rest[i] == parts[i + 1]);
        }
        assert(rest.last() == parts.last());
        lemma_join_split(rest, n);
        assert(s.take(k) =~= p);
        assert(s.skip(k + n.len()) =~= join_with(rest, n));
        assert(split_on(s, n) =~= seq![p] + rest);
        assert(seq![p] + rest =~= parts);
    }
}

/// `p` holds two slashes in a row.
pub open spec fn has_double_slash(p: Seq<u8>) -> bool {
    exists|j: int| 0 <= j && j + 1 < p.len() && #[trigger] p[j] == 47u8 && p[j + 1] == 47u8
}

/// A part without `//` is followed by its first separator exactly where the separator
/// was put, and holds none itself.
proof fn lemma_no_double_slash(p: Seq<u8>, with_newline: bool)
    requires
        !has_double_slash(p),
    ensures
        first_occurrence(p + separator(with_newline), separator(with_newline)) == Some(p.len()),
        forall|j: int| !occurs_at(p, separator(with_newline), j),
{
    let n = separator(with_newline);
    let s = p + n;
    let k = p.len() as int;
    assert forall|j: int| 0 <= j < k implies !occurs_at(s, n, j) by {
        if occurs_at(s, n, j) {
            assert(s.subrange(j, j + 4)[1] == 47u8);
            assert(s.subrange(j, j + 4)[2] == 47u8);
            assert(s[j + 1] == 47u8);
            assert(s[j + 2] == 47u8);
            if j + 2 < k {
                assert(p[j + 1] == 47u8 && p[j + 2] == 47u8);
                assert(has_double_slash(p));
            } else {
                assert(s[k] == 32u8);
            }
        }
    }
    assert(s.subrange(k, k + 4) =~= n);
    lemma_first_occurrence_is(s, n, k);
    assert forall|j: int| !occurs_at(p, n, j) by {
        if occurs_at(p, n, j) {
            assert(p.subrange(j, j + 4)[1] == 47u8);
            assert(p.subrange(j, j + 4)[2] == 47u8);
            assert(p[j + 1] == 47u8 && p[j + 2] == 47u8);
            assert(has_double_slash(p));
        }
    }
}

/// The separator that `split_double_slash` splits on: ` //\n` or ` // `.
pub open spec fn separator(with_newline: bool) -> Seq<u8> {
    if with_newline {
        seq![32u8, 47u8, 47u8, 10u8]
    } else {
        seq![32u8, 47u8, 47u8, 32u8]
    }
}

/// Returns the index of the first occurrence of `needle` in `haystack`, or `None`
/// when it does not occur (`memchr::memmem::find`, as its documentation states).
pub assume_specification[ memchr::memmem::find ](haystack: &[u8], needle: &[u8]) -> (r: Option<usize>)
    ensures
        match r {
            Some(i) => {
                &&& occurs_at(haystack@, needle@, i as int)
                &&& forall|j: int| 0 <= j < i ==> !occurs_at(haystack@, needle@, j)
            },
            None => forall|j: int| !occurs_at(haystack@, needle@, j),
        },
;

/// The byte sequences that a list of slices holds.
pub open spec fn slice_views(v: Seq<&[u8]>) -> Seq<Seq<u8>> {
    v.map_values(|x: &[u8]| x@)
}

/// Splits a byte slice on ` //\n` when `with_newline` holds, else on ` // `.
pub fn split_double_slash<'a>(slice: &'a [u8], with_newline: bool) -> (pieces: Vec<&'a [u8]>)
    ensures
        slice_views(pieces@) == split_on(slice@, separator(with_newline)),
{
    let nl: [u8; 4] = [32u8, 47u8, 47u8, 10u8];
    let sp: [u8; 4] = [32u8, 47u8, 47u8, 32u8];
    let needle: &[u8] = if with_newline { nl.as_slice() } else { sp.as_slice() };
    assert(needle@ =~= separator(with_newline));
    let ghost n = separator(with_newline);
    let mut pieces: Vec<&'a [u8]> = Vec::new();
    let mut rest: &'a [u8] = slice;
    loop
        invariant_except_break
            split_on(slice@, n) == slice_views(pieces@) + split_on(rest@, n),
        invariant
            needle@ == n,
            n.len() == 4,
        ensures
            split_on(slice@, n) == slice_views(pieces@),
        decreases rest@.len(),
    {
        proof {
            lemma_first_occurrence(rest@, n);
        }
        match memchr::memmem::find(rest, needle) {
            Some(pos) => {
                assert(first_occurrence(rest@, n) == Some(pos as nat)) by {
                    lemma_first_occurrence(rest@, n);
                    let f = first_occurrence(rest@, n);
                    if f is None {
                    } else {
                        let k = f->0;
                        if k < pos {
                        } else if k > pos {
                        }
                    }
                };
                let rest_len = rest.len();
                assert(pos + 4 <= rest_len);
                let before = vstd::slice::slice_subrange(rest, 0, pos);
                let after = vstd::slice::slice_subrange(rest, pos + 4, rest_len);
                let ghost old_pieces = slice_views(pieces@);
                pieces.push(before);
                assert(slice_views(pieces@) =~= old_pieces.push(before@));
                assert(split_on(rest@, n) == seq![rest@.take(pos as int)] + split_on(rest@.skip(pos + 4), n));
                assert(before@ =~= rest@.take(pos as int));
                assert(after@ =~= rest@.skip(pos + 4));
                assert(old_pieces + split_on(rest@, n) =~= old_pieces.push(before@) + split_on(after@, n));
                rest = after;
            },
            None => {
                assert(first_occurrence(rest@, n) is None) by {
                    lemma_first_occurrence(rest@, n);
                };
                let ghost old_pieces = slice_views(pieces@);
                pieces.push(rest);
                assert(slice_views(pieces@) =~= old_pieces.push(rest@));
                assert(split_on(rest@, n) == seq![rest@]);
                assert(old_pieces + split_on(rest@, n) =~= slice_views(pieces@));
                break;
            },
        }
    }
    pieces
}

/// Splitting on either separator recovers the parts it was put between, as long as
/// no part holds `//` (paths never do, since `/` cannot stand in a file name).
pub proof fn lemma_split_recovers_parts(parts: Seq<Seq<u8>>, with_newline: bool)
    requires
        parts.len() >= 1,
        forall|i: int| 0 <= i < parts.len() ==> !has_double_slash(#[trigger] parts[i]),
    ensures
        split_on(join_with(parts, separator(with_newline)), separator(with_newline)) == parts,
{
    let n = separator(with_newline);
    assert forall|i: int| 0 <= i < parts.len() - 1 implies first_occurrence(#[trigger] parts[i] + n, n)
        == Some(parts[i].len()) by {
        lemma_no_double_slash(parts[i], with_newline);
    }
    lemma_no_double_slash(parts.last(), with_newline);
    lemma_join_split(parts, n);
}

/// The parts written one after the other, each followed by `sep`.
pub open spec fn listing<A>(parts: Seq<Seq<A>>, sep: Seq<A>) -> Seq<A>
    decreases parts.len(),
{
    if parts.len() == 0 {
        Seq::empty()
    } else {
        listing(parts.drop_last(), sep) + parts.last() + sep
    }
}

/// Writing each part followed by `sep` is joining with `sep` with an empty last part.
pub proof fn lemma_listing_is_join<A>(parts: Seq<Seq<A>>, sep: Seq<A>)
    ensures
        listing(parts, sep) == join_with(parts.push(Seq::empty()), sep),
    decreases parts.len(),
{
    if parts.len() == 0 {
        assert(parts.push(Seq::empty()) =~= seq![Seq::<A>::empty()]);
        assert(listing(parts, sep) =~= join_with(parts.push(Seq::empty()), sep));
    } else {
        let init = parts.drop_last();
        lemma_listing_is_join(init, sep);
        lemma_join_push(parts, Seq::empty(), sep);
        if init.len() == 0 {
            assert(parts =~= seq![parts.last()]);
            assert(join_with(parts, sep) == parts.last());
        } else {
            assert(init.push(parts.last()) =~= parts);
            lemma_join_push(init, parts.last(), sep);
            lemma_join_push(init, Seq::empty(), sep);
        }
        assert(listing(parts, sep) =~= join_with(parts.push(Seq::empty()), sep));
    }
}

/// Listings concatenate: the listing of `xs` followed by `ys` is the listing of `xs`
/// followed by that of `ys`.
pub proof fn lemma_listing_add<A>(xs: Seq<Seq<A>>, ys: Seq<Seq<A>>, sep: Seq<A>)
    ensures
        listing(xs + ys, sep) == listing(xs, sep) + listing(ys, sep),
    decreases ys.len(),
{
    if ys.len() == 0 {
        assert(xs + ys =~= xs);
        assert(listing(xs, sep) + listing(ys, sep) =~= listing(xs, sep));
    } else {
        lemma_listing_add(xs, ys.drop_last(), sep);
        assert((xs + ys).drop_last() =~= xs + ys.drop_last());
        assert((xs + ys).last() == ys.last());
        assert(listing(xs + ys, sep) =~= listing(xs, sep) + listing(ys, sep));
    }
}

/// A part without a line feed is followed by its first ` //\n` exactly where that
/// separator was put, and holds none itself.
proof fn lemma_no_newline(p: Seq<u8>)
    requires
        forall|i: int| 0 <= i < p.len() ==> p[i] != 10u8,
    ensures
        first_occurrence(p + separator(true), separator(true)) == Some(p.len()),
        forall|j: int| !occurs_at(p, separator(true), j),
{
    let n = separator(true);
    let s = p + n;
    let k = p.len() as int;
    assert forall|j: int| 0 <= j < k implies !occurs_at(s, n, j) by {
        if occurs_at(s, n, j) {
            assert(s.subrange(j, j + 4)[3] == 10u8);
            assert(s[j + 3] == 10u8);
            if j + 3 < k {
                assert(p[j + 3] == 10u8);
            } else {
                assert(s[j + 3] == n[j + 3 - k]);
            }
        }
    }
    assert(s.subrange(k, k + 4) =~= n);
    lemma_first_occurrence_is(s, n, k);
    assert forall|j: int| !occurs_at(p, n, j) by {
        if occurs_at(p, n, j) {
            assert(p.subrange(j, j + 4)[3] == 10u8);
            assert(p[j + 3] == 10u8);
        }
    }
}

/// Entries holding no line feed, each written followed by ` //\n`, are split back
/// into exactly those entries and a final empty piece.
pub proof fn lemma_split_listing(entries: Seq<Seq<u8>>)
    requires
        forall|k: int, i: int| 0 <= k < entries.len() && 0 <= i < entries[k].len() ==> #[trigger] entries[k][i]
            != 10u8,
    ensures
        split_on(listing(entries, separator(true)), separator(true)) == entries.push(Seq::empty()),
{
    let n = separator(true);
    let parts = entries.push(Seq::<u8>::empty());
    lemma_listing_is_join(entries, n);
    assert forall|i: int| 0 <= i < parts.len() - 1 implies first_occurrence(#[trigger] parts[i] + n, n)
        == Some(parts[i].len()) by {
        assert(parts[i] == entries[i]);
        assert forall|q: int| 0 <= q < parts[i].len() implies parts[i][q] != 10u8 by {
            assert(entries[i][q] != 10u8);
        }
        lemma_no_newline(parts[i]);
    }
    assert(parts.last().len() == 0);
    lemma_no_newline(parts.last());
    lemma_join_split(parts, n);
}

} // verus!
