//! The interspersing entry points.
//!
//! Every function here produces the output described by
//! [`crate::model::interspersed`]: the items in order, one copy of the
//! separator strictly between consecutive items — never before the first,
//! never after the last, and not at all for an empty or single-item
//! sequence. The `write` functions target any [`FmtWrite`] destination and
//! fail fast on the first rejected write; the `format` functions build a
//! fresh string and cannot fail.

use vstd::prelude::*;
use vstd::string::StringExecFns;

use crate::model::interspersed;
use crate::model::lemma_interspersed_push;
use crate::model::line_term;
use crate::model::lemma_interspersed_take_prefix;
use crate::model::lemma_item_partial_prefix;
use crate::model::lemma_prefix_extend;
use crate::model::lemma_prefix_of_concat;
use crate::model::lemma_prefix_transitive;
use crate::model::lemma_push_item_partial_prefix;
use crate::model::lemma_push_sep_partial_prefix;
use crate::model::lemma_sep_partial_prefix;
use crate::sink::FmtWrite;
use crate::sink::WriteError;

verus! {

/// The rendered views of a sequence of already-rendered items: each string
/// item stands for itself.
pub open spec fn str_views(items: Seq<String>) -> Seq<Seq<char>> {
    items.map_values(|s: String| s@)
}

/// Builds the interspersed concatenation of `items` with one copy of `sep`
/// between consecutive items, in a fresh string. This path cannot fail.
pub fn format_interspersed(items: &Vec<String>, sep: &str) -> (r: String)
    ensures
        r@ == interspersed(str_views(items@), sep@),
{
    let ghost all = str_views(items@);
    let mut buf = String::new();
    let n = items.len();
    proof {
        assert(all.take(0) =~= Seq::<Seq<char>>::empty());
    }
    let mut i: usize = 0;
    while i < n
        invariant
            n == items.len(),
            all == str_views(items@),
            0 <= i <= n,
            buf@ == interspersed(all.take(i as int), sep@),
        decreases n - i,
    {
        proof {
            lemma_interspersed_push(all.take(i as int), sep@, all[i as int]);
            assert(all.take(i as int + 1) =~= all.take(i as int).push(all[i as int]));
        }
        if i > 0 {
            buf.append(sep);
        }
        buf.append(items[i].as_str());
        proof {
            if i == 0 {
                assert(buf@ =~= interspersed(all.take(1), sep@));
            }
        }
        i += 1;
    }
    proof {
        assert(all.take(n as int) =~= all);
    }
    buf
}

/// Writes the interspersed concatenation of `items` with one copy of `sep`
/// between consecutive items to `w`. On success the destination has grown
/// by exactly that text. On the first rejected write the failure is
/// surfaced unchanged and the operation stops: what was already written
/// stays written, and it is a prefix of the full output — nothing is
/// reordered or invented. An empty item sequence always succeeds: no write
/// is attempted at all.
pub fn write_interspersed<W: FmtWrite>(w: &mut W, items: &Vec<String>, sep: &str) -> (r: Result<
    (),
    WriteError,
>)
    ensures
        items@.len() == 0 ==> r is Ok,
        r is Ok ==> final(w).contents() == old(w).contents() + interspersed(
            str_views(items@),
            sep@,
        ),
        r is Err ==> old(w).contents().is_prefix_of(final(w).contents()),
        r is Err ==> final(w).contents().is_prefix_of(
            old(w).contents() + interspersed(str_views(items@), sep@),
        ),
{
    let ghost all = str_views(items@);
    let ghost base = old(w).contents();
    let ghost full = interspersed(all, sep@);
    let n = items.len();
    if n == 0 {
        proof {
            assert(base + full =~= base);
        }
        return Ok(());
    }
    proof {
        lemma_interspersed_push(all.take(0), sep@, all[0]);
        assert(all.take(1) =~= all.take(0).push(all[0]));
    }
    if let Err(e) = w.write_str(items[0].as_str()) {
        proof {
            let k = choose|k: int|
                0 <= k <= all[0].len() && w.contents() == base + all[0].subrange(0, k);
            let pre = all[0].subrange(0, k);
            assert(pre.is_prefix_of(all[0]));
            lemma_item_partial_prefix(all, sep@, 0, pre);
            lemma_prefix_of_concat(base, pre);
            lemma_prefix_extend(base, pre, full);
        }
        return Err(e);
    }
    let mut i: usize = 1;
    while i < n
        invariant
            n == items.len(),
            all == str_views(items@),
            base == old(w).contents(),
            full == interspersed(all, sep@),
            1 <= i <= n,
            w.contents() == base + interspersed(all.take(i as int), sep@),
        decreases n - i,
    {
        let ghost done = interspersed(all.take(i as int), sep@);
        if let Err(e) = w.write_str(sep) {
            proof {
                let k = choose|k: int|
                    0 <= k <= sep@.len() && w.contents() == (base + done) + sep@.subrange(0, k);
                let pre = sep@.subrange(0, k);
                assert(pre.is_prefix_of(sep@));
                lemma_sep_partial_prefix(all, sep@, i as int, pre);
                lemma_prefix_of_concat(base, done + pre);
                lemma_prefix_extend(base, done + pre, full);
                assert((base + done) + pre =~= base + (done + pre));
            }
            return Err(e);
        }
        if let Err(e) = w.write_str(items[i].as_str()) {
            proof {
                let k = choose|k: int|
                    0 <= k <= all[i as int].len() && w.contents() == ((base + done) + sep@)
                        + all[i as int].subrange(0, k);
                let pre = all[i as int].subrange(0, k);
                assert(pre.is_prefix_of(all[i as int]));
                lemma_item_partial_prefix(all, sep@, i as int, pre);
                lemma_prefix_of_concat(base, (done + sep@) + pre);
                lemma_prefix_extend(base, (done + sep@) + pre, full);
                assert(((base + done) + sep@) + pre =~= base + ((done + sep@) + pre));
            }
            return Err(e);
        }
        proof {
            lemma_interspersed_push(all.take(i as int), sep@, all[i as int]);
            assert(all.take(i as int + 1) =~= all.take(i as int).push(all[i as int]));
            assert(((base + done) + sep@) + all[i as int] =~= base + interspersed(
                all.take(i as int + 1),
                sep@,
            ));
        }
        i += 1;
    }
    proof {
        assert(all.take(n as int) =~= all);
    }
    Ok(())
}

/// Like [`write_interspersed`], then writes exactly one line terminator —
/// also over an empty item sequence, whose output is the terminator alone.
pub fn writeln_interspersed<W: FmtWrite>(w: &mut W, items: &Vec<String>, sep: &str) -> (r: Result<
    (),
    WriteError,
>)
    ensures
        r is Ok ==> final(w).contents() == old(w).contents() + interspersed(
            str_views(items@),
            sep@,
        ) + line_term(),
        r is Err ==> old(w).contents().is_prefix_of(final(w).contents()),
        r is Err ==> final(w).contents().is_prefix_of(
            old(w).contents() + interspersed(str_views(items@), sep@) + line_term(),
        ),
{
    let ghost base = old(w).contents();
    let ghost body = interspersed(str_views(items@), sep@);
    if let Err(e) = write_interspersed(w, items, sep) {
        proof {
            lemma_prefix_of_concat(base + body, line_term());
            lemma_prefix_transitive(w.contents(), base + body, (base + body) + line_term());
        }
        return Err(e);
    }
    proof {
        reveal_strlit("\n");
        assert("\n"@ =~= line_term());
    }
    if let Err(e) = w.write_str("\n") {
        proof {
            let k = choose|k: int|
                0 <= k <= "\n"@.len() && w.contents() == (base + body) + "\n"@.subrange(0, k);
            let pre = "\n"@.subrange(0, k);
            assert(pre.is_prefix_of(line_term()));
            lemma_prefix_extend(base + body, pre, line_term());
            lemma_prefix_of_concat(base, body + pre);
            lemma_prefix_extend(base, body + pre, body + line_term());
            assert((base + body) + pre =~= base + (body + pre));
            assert((base + body) + line_term() =~= base + (body + line_term()));
            lemma_prefix_transitive(base, base + (body + pre), (base + body) + pre);
        }
        return Err(e);
    }
    Ok(())
}

/// `out` is the view of a string the formatting rule `f` can return for
/// the item `t`.
pub open spec fn renders<T, F: Fn(&T) -> String>(f: F, t: T, out: Seq<char>) -> bool {
    exists|s: String|
        #![trigger call_ensures(f, (&t,), s)]
        call_ensures(f, (&t,), s) && s@ == out
}

/// `rendered` is one way the formatting rule `f` can render `items`, item
/// by item: every entry is the view of a string `f` can return for the
/// corresponding item.
pub open spec fn rendered_by<T, F: Fn(&T) -> String>(
    f: F,
    items: Seq<T>,
    rendered: Seq<Seq<char>>,
) -> bool {
    &&& rendered.len() == items.len()
    &&& forall|j: int| 0 <= j < items.len() ==> renders(f, items[j], #[trigger] rendered[j])
}

/// Like [`format_interspersed`], with each item rendered by the
/// caller-supplied rule `f` instead of standing for itself.
pub fn format_interspersed_by<T, F: Fn(&T) -> String>(items: &Vec<T>, sep: &str, f: F) -> (r:
    String)
    requires
        forall|j: int| 0 <= j < items@.len() ==> call_requires(f, (&items@[j],)),
    ensures
        exists|rendered: Seq<Seq<char>>|
            #[trigger] rendered_by(f, items@, rendered) && r@ == interspersed(rendered, sep@),
{
    let ghost mut rendered: Seq<Seq<char>> = Seq::empty();
    let mut buf = String::new();
    let n = items.len();
    let mut i: usize = 0;
    while i < n
        invariant
            n == items.len(),
            0 <= i <= n,
            rendered.len() == i,
            forall|j: int| 0 <= j < i ==> renders(f, items@[j], #[trigger] rendered[j]),
            buf@ == interspersed(rendered, sep@),
            forall|j: int| 0 <= j < items@.len() ==> call_requires(f, (&items@[j],)),
        decreases n - i,
    {
        let s = f(&items[i]);
        proof {
            lemma_interspersed_push(rendered, sep@, s@);
        }
        if i > 0 {
            buf.append(sep);
        }
        buf.append(s.as_str());
        proof {
            let prev = rendered;
            rendered = rendered.push(s@);
            assert(call_ensures(f, (&items@[i as int],), s));
            assert(renders(f, items@[i as int], s@));
            assert forall|j: int| 0 <= j < i + 1 implies renders(
                f,
                items@[j],
                #[trigger] rendered[j],
            ) by {
                if j < i {
                    assert(renders(f, items@[j], prev[j]));
                    assert(rendered[j] == prev[j]);
                } else {
                    assert(rendered[j] == s@);
                }
            }
            if i == 0 {
                assert(buf@ =~= interspersed(rendered, sep@));
            }
        }
        i += 1;
    }
    proof {
        assert(rendered_by(f, items@, rendered));
    }
    buf
}

/// Like [`write_interspersed`], with each item rendered by the
/// caller-supplied rule `f` instead of standing for itself. On the first
/// rejected write the failure is surfaced unchanged; what was already
/// written stays written, and it is a prefix of a rendering of a prefix of
/// the items — nothing is reordered or invented. An empty item sequence
/// always succeeds: no write is attempted at all.
pub fn write_interspersed_by<W: FmtWrite, T, F: Fn(&T) -> String>(
    w: &mut W,
    items: &Vec<T>,
    sep: &str,
    f: F,
) -> (r: Result<(), WriteError>)
    requires
        forall|j: int| 0 <= j < items@.len() ==> call_requires(f, (&items@[j],)),
    ensures
        items@.len() == 0 ==> r is Ok,
        r is Ok ==> exists|rendered: Seq<Seq<char>>|
            #[trigger] rendered_by(f, items@, rendered) && final(w).contents() == old(
                w,
            ).contents() + interspersed(rendered, sep@),
        r is Err ==> old(w).contents().is_prefix_of(final(w).contents()),
        r is Err ==> exists|rendered: Seq<Seq<char>>, j: int|
            0 <= j <= items@.len() && #[trigger] rendered_by(f, items@.take(j), rendered)
                && final(w).contents().is_prefix_of(
                old(w).contents() + interspersed(rendered, sep@),
            ),
{
    let ghost base = old(w).contents();
    let ghost mut rendered: Seq<Seq<char>> = Seq::empty();
    let n = items.len();
    let mut i: usize = 0;
    while i < n
        invariant
            n == items.len(),
            0 <= i <= n,
            base == old(w).contents(),
            rendered.len() == i,
            forall|j: int| 0 <= j < i ==> renders(f, items@[j], #[trigger] rendered[j]),
            w.contents() == base + interspersed(rendered, sep@),
            forall|j: int| 0 <= j < items@.len() ==> call_requires(f, (&items@[j],)),
        decreases n - i,
    {
        let ghost done = interspersed(rendered, sep@);
        let s = f(&items[i]);
        proof {
            lemma_interspersed_push(rendered, sep@, s@);
        }
        if i > 0 {
            if let Err(e) = w.write_str(sep) {
                proof {
                    let k = choose|k: int|
                        0 <= k <= sep@.len() && w.contents() == (base + done) + sep@.subrange(0, k);
                    let pre = sep@.subrange(0, k);
                    lemma_prefix_of_concat(base, done + pre);
                    assert((base + done) + pre =~= base + (done + pre));
                    assert(call_ensures(f, (&items@[i as int],), s));
                    assert(renders(f, items@[i as int], s@));
                    lemma_rendered_by_extend(f, items@, rendered, i as int, s@);
                    assert(pre.is_prefix_of(sep@));
                    lemma_push_sep_partial_prefix(rendered, sep@, s@, pre);
                    lemma_prefix_extend(base, done + pre, interspersed(rendered.push(s@), sep@));
                }
                return Err(e);
            }
        }
        if let Err(e) = w.write_str(s.as_str()) {
            proof {
                assert(call_ensures(f, (&items@[i as int],), s));
                assert(renders(f, items@[i as int], s@));
                lemma_rendered_by_extend(f, items@, rendered, i as int, s@);
                let goal = interspersed(rendered.push(s@), sep@);
                if i == 0 {
                    let k = choose|k: int|
                        0 <= k <= s@.len() && w.contents() == (base + done) + s@.subrange(0, k);
                    let pre = s@.subrange(0, k);
                    assert(pre.is_prefix_of(s@));
                    lemma_push_item_partial_prefix(rendered, sep@, s@, pre);
                    lemma_prefix_of_concat(base, done + pre);
                    assert((base + done) + pre =~= base + (done + pre));
                    lemma_prefix_extend(base, pre, goal);
                    assert(done =~= Seq::<char>::empty());
                    assert((base + done) + pre =~= base + pre);
                } else {
                    let k = choose|k: int|
                        0 <= k <= s@.len() && w.contents() == ((base + done) + sep@) + s@.subrange(
                            0,
                            k,
                        );
                    let pre = s@.subrange(0, k);
                    assert(pre.is_prefix_of(s@));
                    lemma_push_item_partial_prefix(rendered, sep@, s@, pre);
                    lemma_prefix_of_concat(base, (done + sep@) + pre);
                    assert(((base + done) + sep@) + pre =~= base + ((done + sep@) + pre));
                    lemma_prefix_extend(base, (done + sep@) + pre, goal);
                }
            }
            return Err(e);
        }
        proof {
            let prev = rendered;
            rendered = rendered.push(s@);
            assert(call_ensures(f, (&items@[i as int],), s));
            assert(renders(f, items@[i as int], s@));
            assert forall|j: int| 0 <= j < i + 1 implies renders(
                f,
                items@[j],
                #[trigger] rendered[j],
            ) by {
                if j < i {
                    assert(renders(f, items@[j], prev[j]));
                    assert(rendered[j] == prev[j]);
                } else {
                    assert(rendered[j] == s@);
                }
            }
            assert(w.contents() =~= base + interspersed(rendered, sep@));
        }
        i += 1;
    }
    proof {
        assert(rendered_by(f, items@, rendered));
    }
    Ok(())
}

/// Like [`writeln_interspersed`], with each item rendered by the
/// caller-supplied rule `f`: the interspersed output, then exactly one line
/// terminator — also over an empty item sequence. On failure what was
/// already written stays written, and it is a prefix of a rendering of a
/// prefix of the items followed by the terminator.
pub fn writeln_interspersed_by<W: FmtWrite, T, F: Fn(&T) -> String>(
    w: &mut W,
    items: &Vec<T>,
    sep: &str,
    f: F,
) -> (r: Result<(), WriteError>)
    requires
        forall|j: int| 0 <= j < items@.len() ==> call_requires(f, (&items@[j],)),
    ensures
        r is Ok ==> exists|rendered: Seq<Seq<char>>|
            #[trigger] rendered_by(f, items@, rendered) && final(w).contents() == old(
                w,
            ).contents() + interspersed(rendered, sep@) + line_term(),
        r is Err ==> old(w).contents().is_prefix_of(final(w).contents()),
        r is Err ==> exists|rendered: Seq<Seq<char>>, j: int|
            0 <= j <= items@.len() && #[trigger] rendered_by(f, items@.take(j), rendered)
                && final(w).contents().is_prefix_of(
                old(w).contents() + interspersed(rendered, sep@) + line_term(),
            ),
{
    let ghost base = old(w).contents();
    if let Err(e) = write_interspersed_by(w, items, sep, f) {
        proof {
            let (rendered, j) = choose|rendered: Seq<Seq<char>>, j: int|
                0 <= j <= items@.len() && #[trigger] rendered_by(f, items@.take(j), rendered)
                    && w.contents().is_prefix_of(base + interspersed(rendered, sep@));
            lemma_prefix_of_concat(base + interspersed(rendered, sep@), line_term());
            lemma_prefix_transitive(
                w.contents(),
                base + interspersed(rendered, sep@),
                (base + interspersed(rendered, sep@)) + line_term(),
            );
        }
        return Err(e);
    }
    let ghost mid = w.contents();
    proof {
        reveal_strlit("\n");
        assert("\n"@ =~= line_term());
    }
    if let Err(e) = w.write_str("\n") {
        proof {
            let k = choose|k: int|
                0 <= k <= "\n"@.len() && w.contents() == mid + "\n"@.subrange(0, k);
            let pre = "\n"@.subrange(0, k);
            let rendered = choose|rendered: Seq<Seq<char>>|
                #[trigger] rendered_by(f, items@, rendered) && mid == base + interspersed(
                    rendered,
                    sep@,
                );
            lemma_prefix_of_concat(base, interspersed(rendered, sep@) + pre);
            assert((base + interspersed(rendered, sep@)) + pre =~= base + (interspersed(
                rendered,
                sep@,
            ) + pre));
            let j = items@.len() as int;
            assert(items@.take(j) =~= items@);
            assert(rendered_by(f, items@.take(j), rendered));
            assert(pre.is_prefix_of(line_term()));
            lemma_prefix_extend(base + interspersed(rendered, sep@), pre, line_term());
        }
        return Err(e);
    }
    Ok(())
}

/// Extending a rendering of the first `i` items with a rendering of item
/// `i` renders the first `i + 1` items.
proof fn lemma_rendered_by_extend<T, F: Fn(&T) -> String>(
    f: F,
    items: Seq<T>,
    rendered: Seq<Seq<char>>,
    i: int,
    out: Seq<char>,
)
    requires
        0 <= i < items.len(),
        rendered.len() == i,
        forall|j: int| 0 <= j < i ==> renders(f, items[j], #[trigger] rendered[j]),
        renders(f, items[i], out),
    ensures
        rendered_by(f, items.take(i + 1), rendered.push(out)),
{
    let ks = items.take(i + 1);
    let rend2 = rendered.push(out);
    assert forall|jj: int| 0 <= jj < ks.len() implies renders(f, ks[jj], #[trigger] rend2[jj]) by {
        assert(ks[jj] == items[jj]);
        if jj < i {
            assert(renders(f, items[jj], rendered[jj]));
            assert(rend2[jj] == rendered[jj]);
        } else {
            assert(rend2[jj] == out);
        }
    }
}

/// A custom formatting rule that can only render an item verbatim yields
/// exactly the default output: whenever `f` admits no rendering of a
/// string but the string itself, every rendering of `items` under `f`
/// interspersed with `sep` equals the interspersed items themselves.
pub proof fn lemma_identity_rule_like_default<F: Fn(&String) -> String>(
    f: F,
    items: Seq<String>,
    rendered: Seq<Seq<char>>,
    sep: Seq<char>,
)
    requires
        forall|x: &String, s: String| #[trigger] call_ensures(f, (x,), s) ==> s@ == x@,
        rendered_by(f, items, rendered),
    ensures
        interspersed(rendered, sep) == interspersed(str_views(items), sep),
{
    assert forall|j: int| 0 <= j < items.len() implies #[trigger] rendered[j] == items[j]@ by {
        assert(renders(f, items[j], rendered[j]));
        let s = choose|s: String|
            #![trigger call_ensures(f, (&items[j],), s)]
            call_ensures(f, (&items[j],), s) && s@ == rendered[j];
        assert(s@ == items[j]@);
    }
    assert(rendered =~= str_views(items));
}

} // verus!

