//! Text form of entries and tables, for the console.
//!
//! An entry is written as the physical address that it names, in hex, and its
//! flags as eight letters, a dot for each flag that is not set. A table is
//! written as one line for each valid entry, indented by level, with the range
//! of virtual addresses that the entry stands for.

use vstd::prelude::*;
use vstd::string::StringExecFns;

use super::pagetable::{entry_at, PageTable};
use super::pte::{Flags, PTE};
use crate::mm::memory::Memory;
use crate::mm::{PhysicalAddr, VirtualAddr, PAGE_OFF};

verus! {

/// The character of a digit below 16: `0` to `9`, then `a` to `f`.
pub open spec fn spec_digit(d: int) -> char {
    if d == 0 {
        '0'
    } else if d == 1 {
        '1'
    } else if d == 2 {
        '2'
    } else if d == 3 {
        '3'
    } else if d == 4 {
        '4'
    } else if d == 5 {
        '5'
    } else if d == 6 {
        '6'
    } else if d == 7 {
        '7'
    } else if d == 8 {
        '8'
    } else if d == 9 {
        '9'
    } else if d == 10 {
        'a'
    } else if d == 11 {
        'b'
    } else if d == 12 {
        'c'
    } else if d == 13 {
        'd'
    } else if d == 14 {
        'e'
    } else {
        'f'
    }
}

/// The hex digits of `v`, lower case, without leading zeros; one zero for 0.
pub open spec fn spec_hex_digits(v: nat) -> Seq<char>
    decreases v,
{
    if v < 16 {
        seq![spec_digit(v as int)]
    } else {
        spec_hex_digits(v / 16).push(spec_digit((v % 16) as int))
    }
}

/// The decimal digits of `v`, without leading zeros; one zero for 0.
pub open spec fn spec_dec_digits(v: nat) -> Seq<char>
    decreases v,
{
    if v < 10 {
        seq![spec_digit(v as int)]
    } else {
        spec_dec_digits(v / 10).push(spec_digit((v % 10) as int))
    }
}

/// `s` filled up with zeros at the left to `width` characters.
pub open spec fn spec_pad(s: Seq<char>, width: nat) -> Seq<char> {
    if s.len() >= width {
        s
    } else {
        Seq::new((width - s.len()) as nat, |i: int| '0') + s
    }
}

/// What `{:#x}` writes for a number: `0x` and its hex digits, lower case, without
/// leading zeros.
#[verifier::opaque]
pub open spec fn spec_hex_alt(v: u64) -> Seq<char> {
    seq!['0', 'x'] + spec_hex_digits(v as nat)
}

/// What `{:0>16x}` writes for a number: its hex digits, lower case, filled up with zeros
/// at the left to sixteen.
#[verifier::opaque]
pub open spec fn spec_hex16(v: u64) -> Seq<char> {
    spec_pad(spec_hex_digits(v as nat), 16)
}

/// What `{:0>3}` writes for a number: its decimal digits, filled up with zeros at the
/// left to three.
#[verifier::opaque]
pub open spec fn spec_dec3(v: u64) -> Seq<char> {
    spec_pad(spec_dec_digits(v as nat), 3)
}

/// `format!` of the standard library with `{:#x}` on a `u64`: `0x` and the hex digits
/// of the number, lower case, without leading zeros.
#[verifier::external_body]
fn hex_alt(v: u64) -> (r: String)
    ensures
        r@ == spec_hex_alt(v),
{
    format!("{:#x}", v)
}

/// `format!` of the standard library with `{:0>16x}` on a `u64`: the hex digits of the
/// number, lower case, filled up with zeros at the left to a width of sixteen.
#[verifier::external_body]
fn hex16(v: u64) -> (r: String)
    ensures
        r@ == spec_hex16(v),
{
    format!("{:0>16x}", v)
}

/// `format!` of the standard library with `{:0>3}` on a `u64`: the decimal digits of the
/// number, filled up with zeros at the left to a width of three.
#[verifier::external_body]
fn dec3(v: u64) -> (r: String)
    ensures
        r@ == spec_dec3(v),
{
    format!("{:0>3}", v)
}

/// `String::push` of the standard library: appends the character to the end of the
/// string.
#[verifier::external_body]
fn push_char(out: &mut String, c: char)
    ensures
        final(out)@ == old(out)@.push(c),
{
    out.push(c);
}

/// The letter of a flag: `c` where every bit of `check` is set in `bits`, a dot else.
pub open spec fn spec_flag_letter(bits: u8, check: u8, c: char) -> char {
    if bits & check == check {
        c
    } else {
        '.'
    }
}

/// The eight letters of a flag byte, D first and V last.
pub open spec fn spec_flag_letters(bits: u8) -> Seq<char> {
    seq![
        spec_flag_letter(bits, 128, 'D'),
        spec_flag_letter(bits, 64, 'A'),
        spec_flag_letter(bits, 32, 'G'),
        spec_flag_letter(bits, 16, 'U'),
        spec_flag_letter(bits, 8, 'E'),
        spec_flag_letter(bits, 4, 'W'),
        spec_flag_letter(bits, 2, 'R'),
        spec_flag_letter(bits, 1, 'V'),
    ]
}

/// The text of an entry: the address of its page, a blank, and its flag letters.
pub open spec fn spec_pte_text(e: PTE) -> Seq<char> {
    spec_hex_alt((e.spec_ppn() * 4096) as u64) + seq![' '] + spec_flag_letters(e.spec_bits())
}

/// Writes the letter `c` where `flags` has the flags of `check`, and a dot where not.
pub fn write_flags_bit(out: &mut String, flags: Flags, check: Flags, c: char)
    ensures
        final(out)@ == old(out)@.push(spec_flag_letter(flags.0, check.0, c)),
{
    if flags.contains(check) {
        push_char(out, c);
    } else {
        push_char(out, '.');
    }
}

/// The text of an address with its tag: the tag, the address in hex, and a closing
/// bracket.
pub open spec fn spec_addr_text(tag: Seq<char>, addr: u64) -> Seq<char> {
    tag + spec_hex_alt(addr) + seq![')']
}

impl PhysicalAddr {
    /// The text of the address: `PA(`, the address in hex, `)`.
    pub fn fmt(&self) -> (r: String)
        ensures
            r@ == spec_addr_text(seq!['P', 'A', '('], self.0),
    {
        proof {
            reveal_strlit("PA(");
            reveal_strlit(")");
        }
        let mut out: String = String::from_str("PA(");
        assert(out@ =~= seq!['P', 'A', '(']);
        let a: String = hex_alt(self.0);
        out.append(a.as_str());
        assert(")"@ =~= seq![')']);
        out.append(")");
        out
    }
}

impl VirtualAddr {
    /// The text of the address: `VA(`, the address in hex, `)`.
    pub fn fmt(&self) -> (r: String)
        ensures
            r@ == spec_addr_text(seq!['V', 'A', '('], self.0),
    {
        proof {
            reveal_strlit("VA(");
            reveal_strlit(")");
        }
        let mut out: String = String::from_str("VA(");
        assert(out@ =~= seq!['V', 'A', '(']);
        let a: String = hex_alt(self.0);
        out.append(a.as_str());
        assert(")"@ =~= seq![')']);
        out.append(")");
        out
    }
}

impl PTE {
    /// The text of the entry: the address of its page in hex, and its flags as letters.
    pub fn fmt(&self) -> (r: String)
        ensures
            r@ == spec_pte_text(*self),
    {
        let ppn: u64 = self.get_page_frame_unchecked().0;
        let mut out: String = hex_alt(ppn * 4096);
        push_char(&mut out, ' ');
        let flags: Flags = self.get_flags();
        write_flags_bit(&mut out, flags, Flags(Flags::DIRTY), 'D');
        write_flags_bit(&mut out, flags, Flags(Flags::ACCESSED), 'A');
        write_flags_bit(&mut out, flags, Flags(Flags::GLOBAL), 'G');
        write_flags_bit(&mut out, flags, Flags(Flags::USER), 'U');
        write_flags_bit(&mut out, flags, Flags(Flags::EXECUTABLE), 'E');
        write_flags_bit(&mut out, flags, Flags(Flags::WRITABLE), 'W');
        write_flags_bit(&mut out, flags, Flags(Flags::READABLE), 'R');
        write_flags_bit(&mut out, flags, Flags(Flags::VALID), 'V');
        assert(out@ =~= spec_pte_text(*self));
        out
    }
}

/// The bits of a virtual address that the index at `level` stands at: 12, 21 or 30.
pub open spec fn spec_level_shift(level: nat) -> u64 {
    (9 * level + 12) as u64
}

/// The first virtual address that entry `idx` of a table at `level` stands for, in a
/// table whose own first address is `addr`. At the root the upper half of the indices
/// stands for the kernel half of the address space.
pub open spec fn spec_entry_start(addr: u64, idx: u64, level: nat) -> u64 {
    let a = addr | (idx << spec_level_shift(level));
    if level == 2 && idx > 255 {
        a | 0xffff_ffc0_0000_0000
    } else {
        a
    }
}

/// The bytes less one that an entry at `level` stands for: a page, two megabytes or a
/// gigabyte.
pub open spec fn spec_level_span(level: nat) -> u64 {
    if level == 0 {
        0xfff
    } else if level == 1 {
        0x1f_ffff
    } else {
        0x3fff_ffff
    }
}

/// The last virtual address that such an entry stands for.
pub open spec fn spec_entry_end(addr: u64, idx: u64, level: nat) -> u64 {
    spec_level_span(level).wrapping_add(spec_entry_start(addr, idx, level))
}

/// The mark of a leaf above the lowest level: a page of one gigabyte or of two
/// megabytes.
pub open spec fn spec_size_mark(e: PTE, level: nat) -> Seq<char> {
    if e.spec_leaf() && level == 2 {
        seq!['1', 'G']
    } else if e.spec_leaf() && level == 1 {
        seq!['2', 'M']
    } else {
        Seq::empty()
    }
}

/// The indentation of a line at `level`: two blanks for each level below the root.
pub open spec fn spec_indent(level: nat) -> Seq<char> {
    if level >= 2 {
        Seq::empty()
    } else if level == 1 {
        seq![' ', ' ']
    } else {
        seq![' ', ' ', ' ', ' ']
    }
}

/// The line of a valid entry: a line break, the indentation, the index in three digits,
/// the range of addresses, the text of the entry, and the size mark.
pub open spec fn spec_entry_line(e: PTE, idx: u64, level: nat, addr: u64) -> Seq<char> {
    seq!['\n'] + spec_indent(level) + spec_dec3(idx) + seq![' ', '0', 'x'] + spec_hex16(
        spec_entry_start(addr, idx, level),
    ) + seq!['~', '0', 'x'] + spec_hex16(spec_entry_end(addr, idx, level)) + seq![' ', '-', ' ']
        + spec_pte_text(e) + seq![' '] + spec_size_mark(e, level)
}

/// Whether the page of frame `f` lies in `mem`, so that a table in it can be read.
pub open spec fn table_in(mem: &Memory, f: u64) -> bool {
    mem.base <= f * 4096 && f * 4096 + 4096 <= mem.base + 8 * mem@.len()
}

/// The entries of the table in frame `f`.
pub open spec fn spec_table(mem: &Memory, f: u64) -> Seq<PTE> {
    Seq::new(512, |i: int| entry_at(mem, f, i))
}

/// The text of the first `n` entries of a table at `level`, each valid entry with its
/// line and, where it points to a table that lies in memory, the text of that table.
pub open spec fn spec_format_dir(mem: &Memory, ptes: Seq<PTE>, level: nat, addr: u64, n: nat) -> Seq<
    char,
>
    decreases level, n,
{
    if n == 0 || n > ptes.len() {
        Seq::empty()
    } else {
        let idx = (n - 1) as u64;
        let e = ptes[n - 1];
        spec_format_dir(mem, ptes, level, addr, (n - 1) as nat) + (if e.spec_valid() {
            spec_entry_line(e, idx, level, addr) + (if e.spec_dir() && level > 0 && table_in(
                mem,
                e.spec_ppn(),
            ) {
                spec_format_dir(
                    mem,
                    spec_table(mem, e.spec_ppn()),
                    (level - 1) as nat,
                    spec_entry_start(addr, idx, level),
                    512,
                )
            } else {
                Seq::empty()
            })
        } else {
            Seq::empty()
        })
    }
}

/// Reads the 512 entries of the table in frame `f`.
pub fn read_table(mem: &Memory, f: u64) -> (r: Vec<PTE>)
    requires
        mem.wf(),
        table_in(mem, f),
    ensures
        r@ == spec_table(mem, f),
{
    let mut v: Vec<PTE> = Vec::new();
    let mut i: u64 = 0;
    proof {
        crate::mm::buddy::buddy::lemma_run_bytes(0);
        vstd::arithmetic::power2::lemma2_to64();
    }
    while i < 512
        invariant
            i <= 512,
            mem.wf(),
            table_in(mem, f),
            v@.len() == i,
            forall|k: int| 0 <= k < i ==> v@[k] == entry_at(mem, f, k),
        decreases 512 - i,
    {
        proof {
            reveal(crate::mm::memory::addr_ok);
            assert(f < 0x400_0000);
        }
        let e: PTE = PTE(mem.read(VirtualAddr(f * 4096 + PAGE_OFF + 8 * i)));
        v.push(e);
        i = i + 1;
    }
    assert(v@ =~= spec_table(mem, f));
    v
}

/// Writes the line of the valid entry `pte`, entry `idx` of a table at `level` whose
/// first address is `addr`, and returns the first address that the entry stands for.
pub fn write_entry_line(out: &mut String, pte: PTE, idx: u64, level: usize, addr: u64) -> (cur: u64)
    requires
        level <= 2,
        idx < 512,
    ensures
        final(out)@ == old(out)@ + spec_entry_line(pte, idx, level as nat, addr),
        cur == spec_entry_start(addr, idx, level as nat),
{
    let shift: u64 = 9 * (level as u64) + 12;
    let mut cur_addr: u64 = addr | (idx << shift);
    if level == 2 && idx > 255 {
        cur_addr = cur_addr | 0xffff_ffc0_0000_0000;
    }
    let span: u64 = if level == 0 {
        0xfff
    } else if level == 1 {
        0x1f_ffff
    } else {
        0x3fff_ffff
    };
    let end_addr: u64 = span.wrapping_add(cur_addr);
    proof {
        reveal_strlit("\n");
        reveal_strlit("");
        reveal_strlit("  ");
        reveal_strlit("    ");
        reveal_strlit(" 0x");
        reveal_strlit("~0x");
        reveal_strlit(" - ");
        reveal_strlit(" ");
        reveal_strlit("1G");
        reveal_strlit("2M");
    }
    let mut line: String = String::from_str("\n");
    assert(line@ =~= seq!['\n']);
    let indent: &str = if level >= 2 {
        ""
    } else if level == 1 {
        "  "
    } else {
        "    "
    };
    assert(indent@ =~= spec_indent(level as nat));
    line.append(indent);
    let n: String = dec3(idx);
    line.append(n.as_str());
    assert(" 0x"@ =~= seq![' ', '0', 'x']);
    line.append(" 0x");
    let a: String = hex16(cur_addr);
    line.append(a.as_str());
    assert("~0x"@ =~= seq!['~', '0', 'x']);
    line.append("~0x");
    let b: String = hex16(end_addr);
    line.append(b.as_str());
    assert(" - "@ =~= seq![' ', '-', ' ']);
    line.append(" - ");
    let t: String = pte.fmt();
    line.append(t.as_str());
    assert(" "@ =~= seq![' ']);
    line.append(" ");
    let mark: &str = if pte.is_leaf() && level == 2 {
        "1G"
    } else if pte.is_leaf() && level == 1 {
        "2M"
    } else {
        ""
    };
    assert(mark@ =~= spec_size_mark(pte, level as nat));
    line.append(mark);
    assert(line@ == spec_entry_line(pte, idx, level as nat, addr));
    out.append(line.as_str());
    cur_addr
}

/// Writes the text of the table `ptes` at `level`, whose first address is `addr`.
pub fn format_dir(out: &mut String, mem: &Memory, ptes: &Vec<PTE>, level: usize, addr: u64)
    requires
        mem.wf(),
        level <= 2,
        ptes@.len() == 512,
    ensures
        final(out)@ == old(out)@ + spec_format_dir(mem, ptes@, level as nat, addr, 512),
    decreases level,
{
    let mut idx: u64 = 0;
    while idx < 512
        invariant
            idx <= 512,
            mem.wf(),
            level <= 2,
            ptes@.len() == 512,
            out@ == old(out)@ + spec_format_dir(mem, ptes@, level as nat, addr, idx as nat),
        decreases 512 - idx,
    {
        let pte: PTE = ptes[idx as usize];
        let ghost done = spec_format_dir(mem, ptes@, level as nat, addr, idx as nat);
        let ghost next = spec_format_dir(mem, ptes@, level as nat, addr, (idx + 1) as nat);
        if pte.is_valid() {
            let cur_addr: u64 = write_entry_line(out, pte, idx, level, addr);
            let ghost line = spec_entry_line(pte, idx, level as nat, addr);
            assert(out@ =~= old(out)@ + (done + line));
            if pte.is_dir() && level > 0 && mem.has_frame(pte.get_page_frame_unchecked().0) {
                let f: u64 = pte.get_page_frame_unchecked().0;
                let table: Vec<PTE> = read_table(mem, f);
                format_dir(out, mem, &table, level - 1, cur_addr);
                let ghost sub = spec_format_dir(
                    mem,
                    spec_table(mem, f),
                    (level - 1) as nat,
                    cur_addr,
                    512,
                );
                assert(next == done + (line + sub));
                assert(out@ =~= old(out)@ + next);
            } else {
                assert(next == done + (line + Seq::<char>::empty()));
                assert(out@ =~= old(out)@ + next);
            }
        } else {
            assert(next == done + Seq::<char>::empty());
            assert(out@ =~= old(out)@ + next);
        }
        idx = idx + 1;
    }
}

/// The text of a table that stands at `at`: its physical address, and, in the long
/// form, a line for every valid entry of the tree.
pub open spec fn spec_table_text(pt: &PageTable, mem: &Memory, at: VirtualAddr, long: bool) -> Seq<
    char,
> {
    let head = seq!['P', 'a', 'g', 'e', 'T', 'a', 'b', 'l', 'e', '('] + spec_hex_alt(
        at.0.wrapping_sub(PAGE_OFF),
    ) + seq![')'];
    if long {
        head + seq![':'] + spec_format_dir(mem, pt.entries@, 2, 0, 512)
    } else {
        head
    }
}

impl PageTable {
    /// The text of the table, for a root that stands at `at` in the linear map. The
    /// long form lists the valid entries of the whole tree.
    pub fn fmt(&self, mem: &Memory, at: VirtualAddr, long: bool) -> (r: String)
        requires
            mem.wf(),
        ensures
            r@ == spec_table_text(self, mem, at, long),
    {
        let mut out: String = String::new();
        push_char(&mut out, 'P');
        push_char(&mut out, 'a');
        push_char(&mut out, 'g');
        push_char(&mut out, 'e');
        push_char(&mut out, 'T');
        push_char(&mut out, 'a');
        push_char(&mut out, 'b');
        push_char(&mut out, 'l');
        push_char(&mut out, 'e');
        push_char(&mut out, '(');
        let a: String = hex_alt(self.as_phys_addr(at).0);
        out.append(a.as_str());
        push_char(&mut out, ')');
        if long {
            push_char(&mut out, ':');
            let mut root: Vec<PTE> = Vec::new();
            let mut i: usize = 0;
            while i < 512
                invariant
                    i <= 512,
                    root@.len() == i,
                    forall|k: int| 0 <= k < i ==> root@[k] == self.entries@[k],
                decreases 512 - i,
            {
                root.push(self.entries[i]);
                i = i + 1;
            }
            assert(root@ =~= self.entries@);
            let ghost head = out@;
            format_dir(&mut out, mem, &root, 2, 0);
            assert(out@ =~= spec_table_text(self, mem, at, long));
        } else {
            assert(out@ =~= spec_table_text(self, mem, at, long));
        }
        out
    }
}

} // verus!
