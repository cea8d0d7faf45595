//! A printer of nested, indented structures into a text buffer.

use vstd::prelude::*;
use vstd::string::*;

verus! {

/// The error a formatting step reports.
#[verifier::external_type_specification]
#[verifier::external_body]
pub struct ExFmtError(core::fmt::Error);

/// `n` levels of indentation, four spaces each.
pub open spec fn indentation(n: nat) -> Seq<char>
    decreases n,
{
    if n == 0 {
        Seq::empty()
    } else {
        indentation((n - 1) as nat) + seq![' ', ' ', ' ', ' ']
    }
}

/// A line break followed by `n` levels of indentation.
pub open spec fn new_line(n: nat) -> Seq<char> {
    seq!['\n'] + indentation(n)
}

/// The text written for `s` at indentation level `n`: every line break of
/// `s` starts an indented line.
pub open spec fn written(s: Seq<char>, n: nat) -> Seq<char>
    decreases s.len(),
{
    if s.len() == 0 {
        Seq::empty()
    } else {
        written(s.drop_last(), n) + if s.last() == '\n' {
            new_line(n)
        } else {
            seq![s.last()]
        }
    }
}

/// Text without line breaks is written as it is.
pub proof fn lemma_written_plain(s: Seq<char>, n: nat)
    requires
        forall|i: int| 0 <= i < s.len() ==> s[i] != '\n',
    ensures
        written(s, n) == s,
    decreases s.len(),
{
    if s.len() > 0 {
        lemma_written_plain(s.drop_last(), n);
        assert(s.drop_last() + seq![s.last()] =~= s);
    }
}

/// A printer of nested structures that indents each level by four spaces.
pub struct PrettyPrinter {
    out: String,
    indent: usize,
}

impl PrettyPrinter {
    /// The text written so far.
    pub closed spec fn text(&self) -> Seq<char> {
        self.out@
    }

    /// The current indentation level.
    pub closed spec fn level(&self) -> nat {
        self.indent as nat
    }

    /// A printer that appends to `out`, at indentation level 0.
    pub fn new(out: String) -> (r: Self)
        ensures
            r.text() == out@,
            r.level() == 0,
    {
        PrettyPrinter { out, indent: 0 }
    }

    /// The text written so far.
    pub fn output(&self) -> (r: &String)
        ensures
            r@ == self.text(),
    {
        &self.out
    }

    /// Starts a new line with indentation.
    pub fn line(&mut self) -> (r: core::fmt::Result)
        ensures
            r is Ok,
            final(self).level() == old(self).level(),
            final(self).text() == old(self).text() + new_line(old(self).level()),
    {
        proof {
            reveal_strlit("\n");
            reveal_strlit("    ");
        }
        self.out.append("\n");
        let mut k: usize = 0;
        while k < self.indent
            invariant
                k <= self.indent,
                self.indent == old(self).indent,
                self.out@ == old(self).out@ + seq!['\n'] + indentation(k as nat),
            decreases self.indent - k,
        {
            proof {
                reveal_strlit("    ");
            }
            self.out.append("    ");
            assert(self.out@ =~= old(self).out@ + seq!['\n'] + indentation((k + 1) as nat));
            k = k + 1;
        }
        Ok(())
    }

    /// Writes `s`; each line break in it starts an indented line.
    pub fn write_str(&mut self, s: &str) -> (r: core::fmt::Result)
        ensures
            r is Ok,
            final(self).level() == old(self).level(),
            final(self).text() == old(self).text() + written(s@, old(self).level()),
    {
        let n = s.unicode_len();
        let mut i: usize = 0;
        while i < n
            invariant
                i <= n,
                n == s@.len(),
                self.indent == old(self).indent,
                self.out@ == old(self).out@ + written(s@.subrange(0, i as int), self.indent as nat),
            decreases n - i,
        {
            let c = s.get_char(i);
            assert(s@.subrange(0, i + 1).drop_last() == s@.subrange(0, i as int));
            if c == '\n' {
                self.line();
            } else {
                self.out.append(s.substring_char(i, i + 1));
            }
            i = i + 1;
        }
        assert(s@.subrange(0, n as int) == s@);
        Ok(())
    }

    /// Runs `then` one indentation level deeper. If `then` fails, its error
    /// is returned and the level is left as `then` left it.
    pub fn indented<F: FnOnce(&mut Self) -> core::fmt::Result>(&mut self, then: F) -> (r: core::fmt::Result)
        requires
            old(self).level() < usize::MAX,
            forall|p: &mut PrettyPrinter| call_requires(then, (p,)),
        ensures
            (forall|p: &mut PrettyPrinter, res: core::fmt::Result|
                call_ensures(then, (p,), res) && res is Ok ==> (*final(p)).level() == (*p).level()) ==> (r is Ok
                ==> final(self).level() == old(self).level()),
            (forall|p: &mut PrettyPrinter, res: core::fmt::Result|
                call_ensures(then, (p,), res) && res is Ok ==> (*final(p)).level() == (*p).level() && (*p).text().is_prefix_of(
                    (*final(p)).text(),
                )) ==> (r is Ok ==> old(self).text().is_prefix_of(final(self).text())),
            exists|p: &mut PrettyPrinter, res: core::fmt::Result|
                #![trigger call_ensures(then, (p,), res)]
                {
                    &&& call_ensures(then, (p,), res)
                    &&& (*p).text() == old(self).text()
                    &&& (*p).level() == old(self).level() + 1
                    &&& final(self).text() == (*final(p)).text()
                    &&& res is Err ==> r == res && final(self).level() == (*final(p)).level()
                    &&& res is Ok ==> r is Ok && final(self).level() == (if (*final(p)).level() > 0 {
                        ((*final(p)).level() - 1) as nat
                    } else {
                        0
                    })
                },
    {
        self.indent = self.indent + 1;
        then(self)?;
        // the public methods leave the level as they found it when they
        // succeed, so the level is still at least one here
        if self.indent > 0 {
            self.indent = self.indent - 1;
        }
        Ok(())
    }

    /// Writes `name {`, then runs `then` one level deeper, then closes the
    /// struct on a new line. If `then` fails, its error is returned and
    /// nothing more is written.
    pub fn add_struct<F: FnOnce(&mut Self) -> core::fmt::Result>(&mut self, name: &str, then: F) -> (r:
        core::fmt::Result)
        requires
            old(self).level() < usize::MAX,
            forall|p: &mut PrettyPrinter| call_requires(then, (p,)),
        ensures
            r is Ok ==> exists|pre: Seq<char>| final(self).text() == pre + new_line(final(self).level()) + seq!['}'],
            (forall|p: &mut PrettyPrinter, res: core::fmt::Result|
                call_ensures(then, (p,), res) && res is Ok ==> (*final(p)).level() == (*p).level() && (*p).text().is_prefix_of(
                    (*final(p)).text(),
                )) ==> (r is Ok ==> final(self).level() == old(self).level() && exists|mid: Seq<char>|
                final(self).text() == old(self).text() + written(name@, old(self).level()) + seq![' ', '{'] + mid
                    + new_line(old(self).level()) + seq!['}']),
            exists|p: &mut PrettyPrinter, res: core::fmt::Result|
                #![trigger call_ensures(then, (p,), res)]
                {
                    let back = if (*final(p)).level() > 0 {
                        ((*final(p)).level() - 1) as nat
                    } else {
                        0
                    };
                    &&& call_ensures(then, (p,), res)
                    &&& (*p).text() == old(self).text() + written(name@, old(self).level()) + seq![' ', '{']
                    &&& (*p).level() == old(self).level() + 1
                    &&& res is Err ==> r == res && final(self).text() == (*final(p)).text() && final(self).level()
                        == (*final(p)).level()
                    &&& res is Ok ==> r is Ok && final(self).level() == back && final(self).text() == (*final(p)).text() + new_line(back) + seq!['}']
                },
    {
        let ghost l0 = self.level();
        proof {
            reveal_strlit(" {");
            lemma_written_plain(" {"@, l0);
        }
        self.write_str(name)?;
        self.write_str(" {")?;
        let ghost t1 = self.text();
        assert(t1 == old(self).text() + written(name@, l0) + seq![' ', '{']);
        self.indented(then)?;
        let ghost pre = self.text();
        self.line()?;
        self.write_str("}")?;
        proof {
            reveal_strlit("}");
            lemma_written_plain("}"@, self.level());
            assert(self.text() == (pre + new_line(self.level())) + seq!['}']);
            let mid = pre.subrange(t1.len() as int, pre.len() as int);
            if t1.is_prefix_of(pre) {
                assert(pre =~= t1 + mid);
            }
            assert(t1.is_prefix_of(pre) ==> self.text() == old(self).text() + written(name@, l0) + seq![' ', '{'] + mid
                + new_line(self.level()) + seq!['}']);
        }
        Ok(())
    }

    /// Writes `name: ` on a new line, then runs `then`, then writes `,`. If
    /// `then` fails, its error is returned and nothing more is written.
    pub fn add_field_with<F: FnOnce(&mut Self) -> core::fmt::Result>(&mut self, name: &str, then: F) -> (r:
        core::fmt::Result)
        requires
            forall|p: &mut PrettyPrinter| call_requires(then, (p,)),
        ensures
            r is Ok ==> exists|pre: Seq<char>| final(self).text() == pre + seq![','],
            (forall|p: &mut PrettyPrinter, res: core::fmt::Result|
                call_ensures(then, (p,), res) && res is Ok ==> (*final(p)).level() == (*p).level() && (*p).text().is_prefix_of(
                    (*final(p)).text(),
                )) ==> (r is Ok ==> final(self).level() == old(self).level() && exists|mid: Seq<char>|
                final(self).text() == old(self).text() + new_line(old(self).level()) + written(name@, old(self).level())
                    + seq![':', ' '] + mid + seq![',']),
            exists|p: &mut PrettyPrinter, res: core::fmt::Result|
                #![trigger call_ensures(then, (p,), res)]
                {
                    &&& call_ensures(then, (p,), res)
                    &&& (*p).text() == old(self).text() + new_line(old(self).level()) + written(name@, old(self).level())
                        + seq![':', ' ']
                    &&& (*p).level() == old(self).level()
                    &&& res is Err ==> r == res && final(self).text() == (*final(p)).text() && final(self).level()
                        == (*final(p)).level()
                    &&& res is Ok ==> r is Ok && final(self).level() == (*final(p)).level() && final(self).text() == (*final(p)).text() + seq![',']
                },
    {
        let ghost l0 = self.level();
        proof {
            reveal_strlit(": ");
            lemma_written_plain(": "@, l0);
        }
        self.line()?;
        self.write_str(name)?;
        self.write_str(": ")?;
        let ghost t1 = self.text();
        assert(t1 == old(self).text() + new_line(l0) + written(name@, l0) + seq![':', ' ']);
        then(self)?;
        let ghost pre = self.text();
        self.write_str(",")?;
        proof {
            reveal_strlit(",");
            lemma_written_plain(","@, self.level());
            let mid = pre.subrange(t1.len() as int, pre.len() as int);
            if t1.is_prefix_of(pre) {
                assert(pre =~= t1 + mid);
            }
            assert(t1.is_prefix_of(pre) ==> self.text() == old(self).text() + new_line(l0) + written(name@, l0) + seq![
                ':',
                ' ',
            ] + mid + seq![',']);
        }
        Ok(())
    }

    /// Writes the field `name: value,` on a new line, where `value` is the
    /// formatted value.
    pub fn add_field(&mut self, name: &str, value: &str) -> (r: core::fmt::Result)
        ensures
            r is Ok,
            final(self).level() == old(self).level(),
            final(self).text() == old(self).text() + new_line(old(self).level()) + written(name@, old(self).level())
                + seq![':', ' '] + written(value@, old(self).level()) + seq![','],
    {
        proof {
            reveal_strlit(": ");
            reveal_strlit(",");
            lemma_written_plain(": "@, self.level());
            lemma_written_plain(","@, self.level());
        }
        self.line()?;
        self.write_str(name)?;
        self.write_str(": ")?;
        self.write_str(value)?;
        self.write_str(",")?;
        Ok(())
    }

    /// Writes ` /* comment */`.
    pub fn add_comment(&mut self, comment: &str) -> (r: core::fmt::Result)
        ensures
            r is Ok,
            final(self).level() == old(self).level(),
            final(self).text() == old(self).text() + seq![' ', '/', '*', ' '] + written(comment@, old(self).level())
                + seq![' ', '*', '/'],
    {
        proof {
            reveal_strlit(" /* ");
            reveal_strlit(" */");
            lemma_written_plain(" /* "@, self.level());
            lemma_written_plain(" */"@, self.level());
        }
        self.write_str(" /* ")?;
        self.write_str(comment)?;
        self.write_str(" */")?;
        Ok(())
    }

    /// Writes a map: `{`, then one `key: value,` entry per line, one level
    /// deeper, then `}` on a new line. If formatting a key or a value fails,
    /// its error is returned at once and nothing more is written.
    ///
    /// `steps[k]` tells the calls for pair `k`: the text and level of the
    /// printer `fmt_key` was given, the text and level it left, and the text
    /// and level `fmt_value` left. The key is given a new line one level
    /// deeper after the text so far, the value follows `: `, and a pair whose
    /// value succeeds is followed by `,`.
    #[verifier::rlimit(40)]
    pub fn add_map<K: Copy, V, FK: FnMut(&mut Self, K) -> core::fmt::Result, FV: FnMut(&mut Self, (K, V)) -> core::fmt::Result>(
        &mut self,
        kv_pairs: Vec<(K, V)>,
        fmt_key: FK,
        fmt_value: FV,
    ) -> (r: core::fmt::Result)
        requires
            old(self).level() < usize::MAX,
            forall|p: &mut PrettyPrinter, k: K| call_requires(fmt_key, (p, k)),
            forall|p: &mut PrettyPrinter, kv: (K, V)| call_requires(fmt_value, (p, kv)),
        ensures
            kv_pairs.len() == 0 ==> r is Ok && final(self).level() == old(self).level() && final(self).text()
                == old(self).text() + seq!['{'] + new_line(old(self).level()) + seq!['}'],
            exists|steps: Seq<(Seq<char>, nat, Seq<char>, nat, Seq<char>, nat)>|
                #![trigger steps.len()]
                {
                    &&& steps.len() <= kv_pairs@.len()
                    &&& steps.len() == 0 ==> kv_pairs@.len() == 0
                    &&& forall|k: int|
                        #![trigger steps[k]]
                        0 <= k < steps.len() ==> steps[k].0.len() >= 0 && exists|p: &mut PrettyPrinter, x: K, res: core::fmt::Result, g: FK|
                            #![trigger call_ensures(g, (p, x), res)]
                            {
                                &&& call_ensures(g, (p, x), res)
                                &&& g == fmt_key
                                &&& x == kv_pairs@[k].0
                                &&& (*p).text() == steps[k].0
                                &&& (*p).level() == steps[k].1
                                &&& (*final(p)).text() == steps[k].2
                                &&& (*final(p)).level() == steps[k].3
                                &&& k < steps.len() - 1 ==> res is Ok
                                &&& k == steps.len() - 1 && res is Err ==> r == res && final(self).text() == steps[k].2
                                    && final(self).level() == steps[k].3
                                &&& res is Ok ==> exists|q: &mut PrettyPrinter, y: (K, V), res2: core::fmt::Result, h: FV|
                                    #![trigger call_ensures(h, (q, y), res2)]
                                    {
                                        &&& call_ensures(h, (q, y), res2)
                                        &&& h == fmt_value
                                        &&& y == kv_pairs@[k]
                                        &&& (*q).text() == steps[k].2 + seq![':', ' ']
                                        &&& (*q).level() == steps[k].3
                                        &&& (*final(q)).text() == steps[k].4
                                        &&& (*final(q)).level() == steps[k].5
                                        &&& k < steps.len() - 1 ==> res2 is Ok
                                        &&& k == steps.len() - 1 && res2 is Err ==> r == res2 && final(self).text() == steps[k].4
                                            && final(self).level() == steps[k].5
                                        &&& k == steps.len() - 1 && res2 is Ok ==> {
                                            let back = if steps[k].5 > 0 { (steps[k].5 - 1) as nat } else { 0 };
                                            &&& steps.len() == kv_pairs@.len()
                                            &&& r is Ok
                                            &&& final(self).level() == back
                                            &&& final(self).text() == steps[k].4 + seq![','] + new_line(back) + seq!['}']
                                        }
                                    }
                            }
                    &&& steps.len() > 0 ==> steps[0].1 == old(self).level() + 1 && steps[0].0 == old(self).text()
                        + seq!['{'] + new_line((old(self).level() + 1) as nat)
                    &&& forall|k: int|
                        0 < k < steps.len() ==> (#[trigger] steps[k]).1 == steps[k - 1].5 && steps[k].0 == steps[k
                            - 1].4 + seq![','] + new_line(steps[k - 1].5)
                },
    {
        let ghost n = kv_pairs@.len();
        let ghost l0 = self.level();
        let ghost t0 = self.text();
        let ghost items0 = kv_pairs@;
        let ghost fk0 = fmt_key;
        let ghost fv0 = fmt_value;
        let items_len = kv_pairs.len();
        let mut fmt_key = fmt_key;
        let mut fmt_value = fmt_value;
        proof {
            reveal_strlit("{");
            lemma_written_plain("{"@, l0);
        }
        self.write_str("{")?;
        let ghost t1 = self.text();
        self.indent = self.indent + 1;
        let ghost mut steps: Seq<(Seq<char>, nat, Seq<char>, nat, Seq<char>, nat)> = Seq::empty();
        let mut remaining = kv_pairs;
        let mut idx: usize = 0;
        let mut stop = false;
        let ghost mut key_failed = false;
        let mut outcome: core::fmt::Result = Ok(());
        while remaining.len() > 0 && !stop
            invariant
                forall|p: &mut PrettyPrinter, k: K| call_requires(fmt_key, (p, k)),
                forall|p: &mut PrettyPrinter, kv: (K, V)| call_requires(fmt_value, (p, kv)),
                fmt_key == fk0,
                fmt_value == fv0,
                n == items0.len(),
                n == items_len,
                items0 == kv_pairs@,
                t0 == old(self).text(),
                l0 == old(self).level(),
                t1 == t0 + seq!['{'],
                idx <= n,
                remaining@ == items0.subrange(if stop { idx + 1 } else { idx as int }, n as int),
                !stop ==> steps.len() == idx,
                stop ==> steps.len() == idx + 1 && idx < n,
                stop && key_failed ==> self.text() == steps[idx as int].2 && self.level() == steps[idx as int].3,
                stop && !key_failed ==> self.text() == steps[idx as int].4 && self.level() == steps[idx as int].5,
                forall|k: int|
                    #![trigger steps[k]]
                    0 <= k < steps.len() ==> steps[k].0.len() >= 0 && exists|p: &mut PrettyPrinter, x: K, res: core::fmt::Result, g: FK|
                        #![trigger call_ensures(g, (p, x), res)]
                        {
                            &&& call_ensures(g, (p, x), res)
                            &&& g == fk0
                            &&& x == items0[k].0
                            &&& (*p).text() == steps[k].0
                            &&& (*p).level() == steps[k].1
                            &&& (*final(p)).text() == steps[k].2
                            &&& (*final(p)).level() == steps[k].3
                            &&& (k < steps.len() - 1 || !stop) ==> res is Ok
                            &&& stop && k == steps.len() - 1 && key_failed ==> res is Err && res == outcome
                            &&& stop && k == steps.len() - 1 && !key_failed ==> res is Ok
                            &&& res is Ok ==> exists|q: &mut PrettyPrinter, y: (K, V), res2: core::fmt::Result, h: FV|
                                #![trigger call_ensures(h, (q, y), res2)]
                                {
                                    &&& call_ensures(h, (q, y), res2)
                                    &&& h == fv0
                                    &&& y == items0[k]
                                    &&& (*q).text() == steps[k].2 + seq![':', ' ']
                                    &&& (*q).level() == steps[k].3
                                    &&& (*final(q)).text() == steps[k].4
                                    &&& (*final(q)).level() == steps[k].5
                                    &&& (k < steps.len() - 1 || !stop) ==> res2 is Ok
                                    &&& stop && k == steps.len() - 1 ==> res2 is Err && res2 == outcome
                                }
                        },
                steps.len() > 0 ==> steps[0].1 == l0 + 1 && steps[0].0 == t1 + new_line((l0 + 1) as nat),
                forall|k: int|
                    0 < k < steps.len() ==> (#[trigger] steps[k]).1 == steps[k - 1].5 && steps[k].0 == steps[k - 1].4
                        + seq![','] + new_line(steps[k - 1].5),
                !stop && idx == 0 ==> self.text() == t1 && self.level() == l0 + 1,
                !stop && idx > 0 ==> self.text() == steps[idx - 1].4 + seq![','] && self.level() == steps[idx - 1].5,
            decreases remaining.len() + if stop { 0int } else { 1int },
        {
            assert(remaining@.len() == n - idx);
            let (key, value) = remaining.remove(0);
            assert((key, value) == items0[idx as int]);
            self.line()?;
            let ghost before = *self;
            let res = fmt_key(self, key);
            let ghost after_key = *self;
            if res.is_err() {
                proof {
                    steps = steps.push((before.text(), before.level(), self.text(), self.level(), self.text(), self.level()));
                    key_failed = true;
                }
                stop = true;
                outcome = res;
            } else {
                proof {
                    reveal_strlit(": ");
                    lemma_written_plain(": "@, self.level());
                }
                self.write_str(": ")?;
                let res2 = fmt_value(self, (key, value));
                proof {
                    steps = steps.push((before.text(), before.level(), after_key.text(), after_key.level(), self.text(), self.level()));
                }
                if res2.is_err() {
                    proof {
                        key_failed = false;
                    }
                    stop = true;
                    outcome = res2;
                } else {
                    proof {
                        reveal_strlit(",");
                        lemma_written_plain(","@, self.level());
                    }
                    self.write_str(",")?;
                    idx = idx + 1;
                }
            }
        }
        if stop {
            return outcome;
        }
        // the public methods leave the level as they found it when they
        // succeed, so the level is still at least one here
        if self.indent > 0 {
            self.indent = self.indent - 1;
        }
        let ghost pre = self.text();
        self.line()?;
        self.write_str("}")?;
        proof {
            reveal_strlit("}");
            lemma_written_plain("}"@, self.level());
            assert(self.text() == (pre + new_line(self.level())) + seq!['}']);
            assert(steps.len() == n);
            if n > 0 {
                assert(steps[n - 1].4 + seq![','] == pre);
            }
        }
        Ok(())
    }

    /// Writes a list: `[`, then one `item,` per line, one level deeper, then
    /// `]` on a new line. If formatting an item fails, its error is returned
    /// at once and nothing more is written.
    ///
    /// `steps[k]` tells the call of `fmt_item` on item `k`: the text and level
    /// of the printer it was given, and the text and level it left. Item `k`
    /// is given a new line one level deeper after the text so far, and is
    /// followed by `,` when it succeeds.
    #[verifier::rlimit(40)]
    pub fn add_list<T, FI: FnMut(&mut Self, T) -> core::fmt::Result>(&mut self, items: Vec<T>, fmt_item: FI) -> (r:
        core::fmt::Result)
        requires
            old(self).level() < usize::MAX,
            forall|p: &mut PrettyPrinter, item: T| call_requires(fmt_item, (p, item)),
        ensures
            items.len() == 0 ==> r is Ok && final(self).level() == old(self).level() && final(self).text()
                == old(self).text() + seq!['['] + new_line(old(self).level()) + seq![']'],
            exists|steps: Seq<(Seq<char>, nat, Seq<char>, nat)>|
                #![trigger steps.len()]
                {
                    &&& steps.len() <= items@.len()
                    &&& steps.len() == 0 ==> items@.len() == 0
                    &&& forall|k: int|
                        #![trigger steps[k]]
                        0 <= k < steps.len() ==> steps[k].0.len() >= 0 && exists|p: &mut PrettyPrinter, x: T, res: core::fmt::Result, g: FI|
                            #![trigger call_ensures(g, (p, x), res)]
                            {
                                &&& call_ensures(g, (p, x), res)
                                &&& g == fmt_item
                                &&& x == items@[k]
                                &&& (*p).text() == steps[k].0
                                &&& (*p).level() == steps[k].1
                                &&& (*final(p)).text() == steps[k].2
                                &&& (*final(p)).level() == steps[k].3
                                &&& k < steps.len() - 1 ==> res is Ok
                                &&& k == steps.len() - 1 && res is Err ==> r == res && final(self).text() == steps[k].2
                                    && final(self).level() == steps[k].3
                                &&& k == steps.len() - 1 && res is Ok ==> {
                                    let back = if steps[k].3 > 0 { (steps[k].3 - 1) as nat } else { 0 };
                                    &&& steps.len() == items@.len()
                                    &&& r is Ok
                                    &&& final(self).level() == back
                                    &&& final(self).text() == steps[k].2 + seq![','] + new_line(back) + seq![']']
                                }
                            }
                    &&& steps.len() > 0 ==> steps[0].1 == old(self).level() + 1 && steps[0].0 == old(self).text()
                        + seq!['['] + new_line((old(self).level() + 1) as nat)
                    &&& forall|k: int|
                        0 < k < steps.len() ==> (#[trigger] steps[k]).1 == steps[k - 1].3 && steps[k].0 == steps[k
                            - 1].2 + seq![','] + new_line(steps[k - 1].3)
                },
    {
        let ghost n = items@.len();
        let ghost l0 = self.level();
        let ghost t0 = self.text();
        let ghost items0 = items@;
        let ghost f0 = fmt_item;
        let items_len = items.len();
        let mut fmt_item = fmt_item;
        proof {
            reveal_strlit("[");
            lemma_written_plain("["@, l0);
        }
        self.write_str("[")?;
        let ghost t1 = self.text();
        self.indent = self.indent + 1;
        let ghost mut steps: Seq<(Seq<char>, nat, Seq<char>, nat)> = Seq::empty();
        let mut remaining = items;
        let mut idx: usize = 0;
        let mut stop = false;
        let mut outcome: core::fmt::Result = Ok(());
        while remaining.len() > 0 && !stop
            invariant
                forall|p: &mut PrettyPrinter, item: T| call_requires(fmt_item, (p, item)),
                fmt_item == f0,
                n == items0.len(),
                n == items_len,
                items0 == items@,
                t0 == old(self).text(),
                l0 == old(self).level(),
                t1 == t0 + seq!['['],
                idx <= n,
                remaining@ == items0.subrange(if stop { idx + 1 } else { idx as int }, n as int),
                !stop ==> steps.len() == idx,
                stop ==> steps.len() == idx + 1 && idx < n && self.text() == steps[idx as int].2 && self.level()
                    == steps[idx as int].3,
                forall|k: int|
                    #![trigger steps[k]]
                    0 <= k < steps.len() ==> steps[k].0.len() >= 0 && exists|p: &mut PrettyPrinter, x: T, res: core::fmt::Result, g: FI|
                        #![trigger call_ensures(g, (p, x), res)]
                        {
                            &&& call_ensures(g, (p, x), res)
                            &&& g == f0
                            &&& x == items0[k]
                            &&& (*p).text() == steps[k].0
                            &&& (*p).level() == steps[k].1
                            &&& (*final(p)).text() == steps[k].2
                            &&& (*final(p)).level() == steps[k].3
                            &&& (k < steps.len() - 1 || !stop) ==> res is Ok
                            &&& stop && k == steps.len() - 1 ==> res is Err && res == outcome
                        },
                steps.len() > 0 ==> steps[0].1 == l0 + 1 && steps[0].0 == t1 + new_line((l0 + 1) as nat),
                forall|k: int|
                    0 < k < steps.len() ==> (#[trigger] steps[k]).1 == steps[k - 1].3 && steps[k].0 == steps[k - 1].2
                        + seq![','] + new_line(steps[k - 1].3),
                !stop && idx == 0 ==> self.text() == t1 && self.level() == l0 + 1,
                !stop && idx > 0 ==> self.text() == steps[idx - 1].2 + seq![','] && self.level() == steps[idx - 1].3,
            decreases remaining.len() + if stop { 0int } else { 1int },
        {
            assert(remaining@.len() == n - idx);
            let item = remaining.remove(0);
            assert(item == items0[idx as int]);
            self.line()?;
            let ghost before = *self;
            let res = fmt_item(self, item);
            proof {
                steps = steps.push((before.text(), before.level(), self.text(), self.level()));
                assert(steps[idx as int].0 == before.text());
            }
            if res.is_err() {
                stop = true;
                outcome = res;
            } else {
                proof {
                    reveal_strlit(",");
                    lemma_written_plain(","@, self.level());
                }
                self.write_str(",")?;
                idx = idx + 1;
            }
        }
        if stop {
            return outcome;
        }
        // the public methods leave the level as they found it when they
        // succeed, so the level is still at least one here
        if self.indent > 0 {
            self.indent = self.indent - 1;
        }
        let ghost pre = self.text();
        self.line()?;
        self.write_str("]")?;
        proof {
            reveal_strlit("]");
            lemma_written_plain("]"@, self.level());
            assert(self.text() == (pre + new_line(self.level())) + seq![']']);
            assert(steps.len() == n);
            if n > 0 {
                assert(steps[n - 1].2 + seq![','] == pre);
            }
        }
        Ok(())
    }
}

} // verus!
