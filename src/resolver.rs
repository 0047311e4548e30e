use crate::checker::{label_name, CheckedLine, CheckedLineCode, LineCode, Unresolved, WriterErr};
use crate::parser::label_decls;
use crate::token::{Token, TokenType};
use vstd::arithmetic::div_mod::lemma_add_mod_noop;
use vstd::prelude::*;

verus! {

/// The units that a line's encoding emits, in output order.
pub open spec fn code_units(c: LineCode) -> Seq<Unresolved> {
    match c {
        LineCode::Data(us) => us,
        LineCode::Instruction(o, us) => seq![Unresolved::Value(o)] + us,
    }
}

/// The number of bytes that a unit stands for.
pub open spec fn unit_width(u: Unresolved) -> nat {
    match u {
        Unresolved::LabelRef { wide: true, .. } => 2,
        _ => 1,
    }
}

pub open spec fn units_width(us: Seq<Unresolved>) -> nat
    decreases us.len(),
{
    if us.len() == 0 {
        0
    } else {
        units_width(us.drop_last()) + unit_width(us.last())
    }
}

/// The number of bytes that a sequence of encoded lines occupies.
pub open spec fn codes_width(codes: Seq<LineCode>) -> nat
    decreases codes.len(),
{
    if codes.len() == 0 {
        0
    } else {
        codes_width(codes.drop_last()) + units_width(code_units(codes.last()))
    }
}

/// The number of bytes that the first `k` lines occupy (all of them when
/// `k` is past the end).
pub open spec fn prefix_width(codes: Seq<LineCode>, k: int) -> nat {
    if 0 <= k <= codes.len() {
        codes_width(codes.subrange(0, k))
    } else {
        codes_width(codes)
    }
}

/// Each declared label bound to the address (modulo 2^16) of the bytes of
/// the lines that follow it; a later declaration of a name replaces an
/// earlier one.
pub open spec fn label_table(codes: Seq<LineCode>, labels: Seq<(Token, int)>) -> Map<
    Seq<char>,
    u16,
>
    decreases labels.len(),
{
    if labels.len() == 0 {
        Map::empty()
    } else {
        label_table(codes, labels.drop_last()).insert(
            label_name(labels.last().0),
            (prefix_width(codes, labels.last().1) % 65536) as u16,
        )
    }
}

/// The bytes of one unit once labels are known.
pub open spec fn resolve_unit(u: Unresolved, labels: Map<Seq<char>, u16>) -> Result<Seq<u8>, WriterErr> {
    match u {
        Unresolved::Value(b) => Ok(seq![b]),
        Unresolved::LabelRef { name, span, wide } => if labels.contains_key(name@) {
            let a = labels[name@];
            if wide {
                Ok(seq![(a / 256) as u8, (a % 256) as u8])
            } else {
                Ok(seq![(a % 256) as u8])
            }
        } else {
            Err(WriterErr::UnknownLabel(name, span))
        },
    }
}

/// The bytes of the units that resolve, and the errors of those that do not.
pub open spec fn resolve_units(us: Seq<Unresolved>, labels: Map<Seq<char>, u16>) -> (Seq<u8>, Seq<WriterErr>)
    decreases us.len(),
{
    if us.len() == 0 {
        (Seq::empty(), Seq::empty())
    } else {
        let (bytes, errs) = resolve_units(us.drop_last(), labels);
        match resolve_unit(us.last(), labels) {
            Ok(b) => (bytes + b, errs),
            Err(e) => (bytes, errs.push(e)),
        }
    }
}

/// `resolve_units` over each line in turn.
pub open spec fn resolve_codes(codes: Seq<LineCode>, labels: Map<Seq<char>, u16>) -> (Seq<u8>, Seq<WriterErr>)
    decreases codes.len(),
{
    if codes.len() == 0 {
        (Seq::empty(), Seq::empty())
    } else {
        let (bytes, errs) = resolve_codes(codes.drop_last(), labels);
        let (b, e) = resolve_units(code_units(codes.last()), labels);
        (bytes + b, errs + e)
    }
}

pub open spec fn codes_of<'a>(lines: Seq<CheckedLine<'a>>) -> Seq<LineCode> {
    lines.map_values(|l: CheckedLine<'a>| l.code@)
}

/// A label table: names with their addresses.
#[derive(Debug)]
pub struct LabelTable {
    pub entries: Vec<(String, u16)>,
}

/// The address under the first entry of a name.
pub open spec fn table_find(entries: Seq<(String, u16)>, name: Seq<char>) -> Option<u16>
    decreases entries.len(),
{
    if entries.len() == 0 {
        None
    } else if entries[0].0@ == name {
        Some(entries[0].1)
    } else {
        table_find(entries.drop_first(), name)
    }
}

pub open spec fn map_lookup(m: Map<Seq<char>, u16>, k: Seq<char>) -> Option<u16> {
    if m.contains_key(k) {
        Some(m[k])
    } else {
        None
    }
}

proof fn lemma_table_push(es: Seq<(String, u16)>, e: (String, u16), k: Seq<char>)
    ensures
        table_find(es.push(e), k) == (if table_find(es, k) is Some {
            table_find(es, k)
        } else if e.0@ == k {
            Some(e.1)
        } else {
            None
        }),
    decreases es.len(),
{
    reveal_with_fuel(table_find, 2);
    if es.len() > 0 {
        assert(es.push(e)[0] == es[0]);
        assert(es.push(e).drop_first() =~= es.drop_first().push(e));
        lemma_table_push(es.drop_first(), e, k);
    } else {
        assert(es.push(e)[0] == e);
        assert(es.push(e).drop_first() =~= Seq::<(String, u16)>::empty());
    }
}

proof fn lemma_table_update(es: Seq<(String, u16)>, i: int, e: (String, u16), k: Seq<char>)
    requires
        0 <= i < es.len(),
        es[i].0@ == e.0@,
        forall|j: int| 0 <= j < i ==> es[j].0@ != e.0@,
    ensures
        table_find(es.update(i, e), k) == (if k == e.0@ {
            Some(e.1)
        } else {
            table_find(es, k)
        }),
    decreases i,
{
    if i == 0 {
        assert(es.update(i, e)[0] == e);
        assert(es.update(i, e).drop_first() =~= es.drop_first());
    } else {
        assert(es.update(i, e)[0] == es[0]);
        assert(es.update(i, e).drop_first() =~= es.drop_first().update(i - 1, e));
        assert forall|j: int| 0 <= j < i - 1 implies es.drop_first()[j].0@ != e.0@ by {
            assert(es[j + 1].0@ != e.0@);
        }
        lemma_table_update(es.drop_first(), i - 1, e, k);
    }
}

impl LabelTable {
    pub open spec fn view(&self) -> Map<Seq<char>, u16> {
        Map::new(
            |k: Seq<char>| table_find(self.entries@, k) is Some,
            |k: Seq<char>| table_find(self.entries@, k)->0,
        )
    }

    pub fn new() -> (r: Self)
        ensures
            r@ == Map::<Seq<char>, u16>::empty(),
    {
        let r = LabelTable { entries: Vec::new() };
        proof {
            assert(r@ =~= Map::<Seq<char>, u16>::empty());
        }
        r
    }

    fn find(&self, name: &String) -> (r: Option<usize>)
        ensures
            match r {
                Some(i) => {
                    &&& i < self.entries@.len()
                    &&& self.entries@[i as int].0@ == name@
                    &&& forall|j: int| 0 <= j < i ==> self.entries@[j].0@ != name@
                    &&& table_find(self.entries@, name@) == Some(self.entries@[i as int].1)
                },
                None => table_find(self.entries@, name@) is None,
            },
    {
        let mut i: usize = 0;
        proof {
            assert(self.entries@.subrange(0, self.entries@.len() as int) =~= self.entries@);
        }
        while i < self.entries.len()
            invariant
                i <= self.entries@.len(),
                forall|j: int| 0 <= j < i ==> self.entries@[j].0@ != name@,
                table_find(self.entries@, name@) == table_find(
                    self.entries@.subrange(i as int, self.entries@.len() as int),
                    name@,
                ),
            decreases self.entries@.len() - i,
        {
            proof {
                let rest = self.entries@.subrange(i as int, self.entries@.len() as int);
                assert(rest.drop_first() =~= self.entries@.subrange(
                    i + 1,
                    self.entries@.len() as int,
                ));
                assert(rest[0] == self.entries@[i as int]);
            }
            if self.entries[i].0 == *name {
                return Some(i);
            }
            i = i + 1;
        }
        None
    }

    /// The address bound to a name.
    pub fn lookup(&self, name: &String) -> (r: Option<u16>)
        ensures
            r == map_lookup(self@, name@),
    {
        match self.find(name) {
            Some(i) => Some(self.entries[i].1),
            None => None,
        }
    }

    /// Binds a name to an address, replacing an earlier binding of the name.
    pub fn insert(&mut self, name: String, address: u16)
        ensures
            final(self)@ == old(self)@.insert(name@, address),
    {
        let ghost old_entries = self.entries@;
        match self.find(&name) {
            Some(i) => {
                let ghost e = (name, address);
                self.entries.set(i, (name, address));
                proof {
                    assert forall|k: Seq<char>| #[trigger]
                        table_find(self.entries@, k) == (if k == name@ {
                            Some(address)
                        } else {
                            table_find(old_entries, k)
                        }) by {
                        lemma_table_update(old_entries, i as int, e, k);
                    }
                }
            },
            None => {
                let ghost e = (name, address);
                self.entries.push((name, address));
                proof {
                    assert forall|k: Seq<char>| #[trigger]
                        table_find(self.entries@, k) == (if k == name@ {
                            Some(address)
                        } else {
                            table_find(old_entries, k)
                        }) by {
                        lemma_table_push(old_entries, e, k);
                    }
                }
            },
        }
        proof {
            assert(self@ =~= old(self)@.insert(name@, address));
        }
    }
}

/// Adds the widths of units to an address, modulo 2^16.
fn advance(us: &Vec<Unresolved>, address: u16) -> (r: u16)
    ensures
        r == (address + units_width(us@)) % 65536,
{
    let mut a = address;
    let mut i: usize = 0;
    proof {
        assert(us@.subrange(0, 0) =~= Seq::<Unresolved>::empty());
    }
    while i < us.len()
        invariant
            i <= us@.len(),
            a == (address + units_width(us@.subrange(0, i as int))) % 65536,
        decreases us@.len() - i,
    {
        proof {
            assert(us@.subrange(0, i + 1).drop_last() =~= us@.subrange(0, i as int));
            assert(us@.subrange(0, i + 1).last() == us@[i as int]);
        }
        let w: u32 = match &us[i] {
            Unresolved::LabelRef { wide: true, .. } => 2,
            _ => 1,
        };
        proof {
            lemma_add_mod_noop(address + units_width(us@.subrange(0, i as int)), w as int, 65536);
            lemma_add_mod_noop(a as int, w as int, 65536);
        }
        a = ((a as u32 + w) % 65536) as u16;
        i = i + 1;
    }
    proof {
        assert(us@.subrange(0, us@.len() as int) =~= us@);
    }
    a
}

/// The address (modulo 2^16) of each line, and of the end, in order.
fn line_addresses<'a>(lines: &Vec<CheckedLine<'a>>) -> (r: Vec<u16>)
    ensures
        r@.len() == lines@.len() + 1,
        forall|k: int|
            0 <= k <= lines@.len() ==> #[trigger] r@[k] == (codes_width(
                codes_of(lines@).subrange(0, k),
            ) % 65536) as u16,
{
    let mut addresses: Vec<u16> = Vec::new();
    let mut address: u16 = 0;
    let n = lines.len();
    let mut i: usize = 0;
    proof {
        assert(codes_of(lines@).subrange(0, 0) =~= Seq::<LineCode>::empty());
    }
    while i < n
        invariant
            n == lines@.len(),
            i <= n,
            address == codes_width(codes_of(lines@).subrange(0, i as int)) % 65536,
            addresses@.len() == i,
            forall|k: int|
                0 <= k < i ==> #[trigger] addresses@[k] == (codes_width(
                    codes_of(lines@).subrange(0, k),
                ) % 65536) as u16,
        decreases n - i,
    {
        let ghost codes = codes_of(lines@);
        let ghost pre = codes.subrange(0, i as int);
        proof {
            assert(codes.subrange(0, i + 1).drop_last() =~= pre);
            assert(codes.subrange(0, i + 1).last() == lines@[i as int].code@);
        }
        addresses.push(address);
        match &lines[i].code {
            CheckedLineCode::Byte(us) => {
                proof {
                    lemma_add_mod_noop(codes_width(pre) as int, units_width(us@) as int, 65536);
                    lemma_add_mod_noop(address as int, units_width(us@) as int, 65536);
                }
                address = advance(us, address);
            },
            CheckedLineCode::Instruction { mnemonic_code, operand_codes } => {
                proof {
                    lemma_units_width_cons(Unresolved::Value(*mnemonic_code), operand_codes@);
                    lemma_add_mod_noop(codes_width(pre) as int + 1, units_width(operand_codes@) as int, 65536);
                    lemma_add_mod_noop(codes_width(pre) as int, 1, 65536);
                    lemma_add_mod_noop(address as int, 1, 65536);
                    lemma_add_mod_noop(((address + 1) % 65536) as int, units_width(operand_codes@) as int, 65536);
                }
                address = ((address as u32 + 1) % 65536) as u16;
                address = advance(operand_codes, address);
            },
        }
        i = i + 1;
    }
    addresses.push(address);
    addresses
}

/// The name that a label declaration binds.
fn declared_name(token: &Token) -> (r: String)
    ensures
        r@ == label_name(*token),
{
    match &token.token_type {
        TokenType::Label(name) => name.clone(),
        _ => token.content.clone(),
    }
}

/// First pass: binds each declared label to the address of the bytes of the
/// lines that follow it. `labels` holds each declaration with the number of
/// lines before it, as `parse_lines` returns them.
pub fn get_resolved_labels<'a>(
    lines: &Vec<CheckedLine<'a>>,
    labels: &Vec<(&'a Token, usize)>,
) -> (r: LabelTable)
    ensures
        r@ == label_table(codes_of(lines@), label_decls(labels@)),
{
    let addresses = line_addresses(lines);
    let n = lines.len();
    let mut table = LabelTable::new();
    let m = labels.len();
    let mut i: usize = 0;
    proof {
        assert(label_decls(labels@).subrange(0, 0) =~= Seq::<(Token, int)>::empty());
    }
    while i < m
        invariant
            m == labels@.len(),
            n == lines@.len(),
            i <= m,
            addresses@.len() == n + 1,
            forall|k: int|
                0 <= k <= n ==> #[trigger] addresses@[k] == (codes_width(
                    codes_of(lines@).subrange(0, k),
                ) % 65536) as u16,
            table@ == label_table(codes_of(lines@), label_decls(labels@).subrange(0, i as int)),
        decreases m - i,
    {
        let ghost decls = label_decls(labels@);
        proof {
            assert(decls.subrange(0, i + 1).drop_last() =~= decls.subrange(0, i as int));
            assert(decls.subrange(0, i + 1).last() == decls[i as int]);
            assert(decls[i as int] == (*labels@[i as int].0, labels@[i as int].1 as int));
            assert(codes_of(lines@).subrange(0, n as int) =~= codes_of(lines@));
        }
        let (token, before) = labels[i];
        let k = if before <= n {
            before
        } else {
            n
        };
        table.insert(declared_name(token), addresses[k]);
        i = i + 1;
    }
    proof {
        assert(label_decls(labels@).subrange(0, m as int) =~= label_decls(labels@));
    }
    table
}

proof fn lemma_units_width_cons(u: Unresolved, us: Seq<Unresolved>)
    ensures
        units_width(seq![u] + us) == unit_width(u) + units_width(us),
    decreases us.len(),
{
    reveal_with_fuel(units_width, 2);
    if us.len() == 0 {
        assert((seq![u] + us).drop_last() =~= Seq::<Unresolved>::empty());
        assert((seq![u] + us).last() == u);
    } else {
        assert((seq![u] + us).last() == us.last());
        assert((seq![u] + us).drop_last() =~= seq![u] + us.drop_last());
        lemma_units_width_cons(u, us.drop_last());
    }
}

proof fn lemma_resolve_cons(u: Unresolved, us: Seq<Unresolved>, labels: Map<Seq<char>, u16>)
    requires
        resolve_unit(u, labels) is Ok,
    ensures
        resolve_units(seq![u] + us, labels) == (
            resolve_unit(u, labels)->Ok_0 + resolve_units(us, labels).0,
            resolve_units(us, labels).1,
        ),
    decreases us.len(),
{
    reveal_with_fuel(resolve_units, 2);
    let b = resolve_unit(u, labels)->Ok_0;
    if us.len() == 0 {
        assert((seq![u] + us).drop_last() =~= Seq::<Unresolved>::empty());
        assert((seq![u] + us).last() == u);
        assert(b =~= Seq::<u8>::empty() + b);
        assert(b + Seq::<u8>::empty() =~= b);
    } else {
        assert((seq![u] + us).last() == us.last());
        assert((seq![u] + us).drop_last() =~= seq![u] + us.drop_last());
        lemma_resolve_cons(u, us.drop_last(), labels);
        let (b0, e0) = resolve_units(us.drop_last(), labels);
        match resolve_unit(us.last(), labels) {
            Ok(x) => {
                assert(b + b0 + x =~= b + (b0 + x));
            },
            Err(_) => {},
        }
    }
}

/// Appends the bytes of resolved units to `out` and the errors of the others to `errors`.
fn resolve_into(
    us: &Vec<Unresolved>,
    labels: &LabelTable,
    out: &mut Vec<u8>,
    errors: &mut Vec<WriterErr>,
)
    ensures
        final(out)@ == old(out)@ + resolve_units(us@, labels@).0,
        final(errors)@ == old(errors)@ + resolve_units(us@, labels@).1,
{
    let ghost out0 = out@;
    let ghost errors0 = errors@;
    let mut i: usize = 0;
    proof {
        assert(us@.subrange(0, 0) =~= Seq::<Unresolved>::empty());
        assert(out@ =~= out0 + Seq::<u8>::empty());
        assert(errors@ =~= errors0 + Seq::<WriterErr>::empty());
    }
    while i < us.len()
        invariant
            i <= us@.len(),
            out@ == out0 + resolve_units(us@.subrange(0, i as int), labels@).0,
            errors@ == errors0 + resolve_units(us@.subrange(0, i as int), labels@).1,
        decreases us@.len() - i,
    {
        let ghost pre = resolve_units(us@.subrange(0, i as int), labels@);
        proof {
            assert(us@.subrange(0, i + 1).drop_last() =~= us@.subrange(0, i as int));
            assert(us@.subrange(0, i + 1).last() == us@[i as int]);
        }
        match &us[i] {
            Unresolved::Value(b) => {
                out.push(*b);
                proof {
                    assert(out@ =~= out0 + (pre.0 + seq![*b]));
                }
            },
            Unresolved::LabelRef { name, span, wide } => match labels.lookup(name) {
                Some(a) => {
                    if *wide {
                        out.push((a / 256) as u8);
                        out.push((a % 256) as u8);
                        proof {
                            assert(out@ =~= out0 + (pre.0 + seq![(a / 256) as u8, (a % 256) as u8]));
                        }
                    } else {
                        out.push((a % 256) as u8);
                        proof {
                            assert(out@ =~= out0 + (pre.0 + seq![(a % 256) as u8]));
                        }
                    }
                },
                None => {
                    errors.push(WriterErr::UnknownLabel(name.clone(), span.clone()));
                    proof {
                        assert(errors@ =~= errors0 + pre.1.push(
                            WriterErr::UnknownLabel(*name, *span),
                        ));
                    }
                },
            },
        }
        i = i + 1;
    }
    proof {
        assert(us@.subrange(0, us@.len() as int) =~= us@);
    }
}

/// Second pass: replaces every label reference with its address. The result
/// holds either all the bytes or an `UnknownLabel` for each reference to an
/// undeclared label.
pub fn resolve<'a>(lines: &Vec<CheckedLine<'a>>, labels: &LabelTable) -> (r: Result<
    Vec<u8>,
    Vec<WriterErr>,
>)
    ensures
        resolve_codes(codes_of(lines@), labels@).1.len() == 0 ==> r == Ok::<
            Vec<u8>,
            Vec<WriterErr>,
        >(r->Ok_0) && r->Ok_0@ == resolve_codes(codes_of(lines@), labels@).0,
        resolve_codes(codes_of(lines@), labels@).1.len() > 0 ==> r == Err::<
            Vec<u8>,
            Vec<WriterErr>,
        >(r->Err_0) && r->Err_0@ == resolve_codes(codes_of(lines@), labels@).1,
{
    let mut out: Vec<u8> = Vec::new();
    let mut errors: Vec<WriterErr> = Vec::new();
    let n = lines.len();
    let mut i: usize = 0;
    proof {
        assert(codes_of(lines@).subrange(0, 0) =~= Seq::<LineCode>::empty());
    }
    while i < n
        invariant
            n == lines@.len(),
            i <= n,
            out@ == resolve_codes(codes_of(lines@).subrange(0, i as int), labels@).0,
            errors@ == resolve_codes(codes_of(lines@).subrange(0, i as int), labels@).1,
        decreases n - i,
    {
        let ghost codes = codes_of(lines@);
        let ghost pre = codes.subrange(0, i as int);
        proof {
            assert(codes.subrange(0, i + 1).drop_last() =~= pre);
            assert(codes.subrange(0, i + 1).last() == lines@[i as int].code@);
        }
        match &lines[i].code {
            CheckedLineCode::Byte(us) => {
                resolve_into(us, labels, &mut out, &mut errors);
            },
            CheckedLineCode::Instruction { mnemonic_code, operand_codes } => {
                let ghost out0 = out@;
                out.push(*mnemonic_code);
                proof {
                    lemma_resolve_cons(Unresolved::Value(*mnemonic_code), operand_codes@, labels@);
                }
                resolve_into(operand_codes, labels, &mut out, &mut errors);
                proof {
                    assert(out@ =~= out0 + (seq![*mnemonic_code] + resolve_units(
                        operand_codes@,
                        labels@,
                    ).0));
                }
            },
        }
        i = i + 1;
    }
    proof {
        assert(codes_of(lines@).subrange(0, n as int) =~= codes_of(lines@));
    }
    if errors.len() == 0 {
        Ok(out)
    } else {
        Err(errors)
    }
}

/// A label is bound to the number of bytes (modulo 2^16) that the lines
/// before its last declaration occupy, whether it is referenced before or
/// after that declaration.
pub proof fn lemma_label_address(codes: Seq<LineCode>, labels: Seq<(Token, int)>, i: int)
    requires
        0 <= i < labels.len(),
        forall|j: int|
            i < j < labels.len() ==> label_name(#[trigger] labels[j].0) != label_name(labels[i].0),
    ensures
        label_table(codes, labels).contains_key(label_name(labels[i].0)),
        label_table(codes, labels)[label_name(labels[i].0)] == (prefix_width(codes, labels[i].1)
            % 65536) as u16,
    decreases labels.len(),
{
    if i < labels.len() - 1 {
        let rest = labels.drop_last();
        assert forall|j: int| i < j < rest.len() implies label_name(#[trigger] rest[j].0)
            != label_name(rest[i].0) by {
            assert(rest[j] == labels[j]);
        }
        assert(rest[i] == labels[i]);
        assert(label_name(labels.last().0) != label_name(labels[i].0));
        lemma_label_address(codes, rest, i);
    }
}

proof fn lemma_codes_width_prefix(codes: Seq<LineCode>, k: int)
    requires
        0 <= k <= codes.len(),
    ensures
        codes_width(codes.subrange(0, k)) <= codes_width(codes),
    decreases codes.len() - k,
{
    if k < codes.len() {
        assert(codes.subrange(0, k + 1).drop_last() =~= codes.subrange(0, k));
        lemma_codes_width_prefix(codes, k + 1);
    } else {
        assert(codes.subrange(0, k) =~= codes);
    }
}

/// A label declared after an instruction never resolves to address 0, as long
/// as fewer than 2^16 bytes come before it: every instruction occupies at
/// least its opcode byte.
pub proof fn lemma_label_after_instruction(codes: Seq<LineCode>, j: int, k: int)
    requires
        0 <= j < k,
        codes[j] is Instruction,
        k <= codes.len(),
        prefix_width(codes, k) < 65536,
    ensures
        (prefix_width(codes, k) % 65536) as u16 > 0,
{
    let pre = codes.subrange(0, k);
    let upto = pre.subrange(0, j + 1);
    assert(upto.drop_last() =~= pre.subrange(0, j));
    assert(upto.last() == codes[j]);
    match codes[j] {
        LineCode::Instruction(o, us) => {
            lemma_units_width_cons(Unresolved::Value(o), us);
        },
        _ => {},
    }
    lemma_codes_width_prefix(pre, j + 1);
}

} // verus!
