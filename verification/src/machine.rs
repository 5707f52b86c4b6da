//! What the machine is, as far as anything that has to emit for it needs to
//! know: which registers exist, which of them a call keeps, where arguments go
//! and where an answer comes back.
//!
//! The register lists are the allocatable ones and nothing else. A stack
//! pointer and a frame pointer are named separately, and so are the scratch
//! registers an emitter works through: an allocator handed any of them would
//! eventually give away what it holds.

use vstd::prelude::*;

verus! {

/// Which file a register comes out of.
#[derive(Debug, Clone, Copy, PartialEq, Eq, Structural)]
pub enum Class {
    Int,
    Float,
}

/// One register, by the name a listing calls it and the kind of value it holds.
#[derive(Debug, Clone, Copy, PartialEq, Eq)]
pub struct Reg {
    pub name: &'static str,
    pub class: Class,
}

impl View for Reg {
    type V = (Seq<char>, Class);

    /// A register is its name and its file.
    open spec fn view(&self) -> (Seq<char>, Class) {
        (self.name@, self.class)
    }
}

/// `==` on two strings.
#[verifier::external_body]
pub(crate) fn same_text(a: &str, b: &str) -> (r: bool)
    ensures
        r == (a@ == b@),
{
    a == b
}

impl Reg {
    /// Whether two registers are the one register.
    pub fn same(&self, other: &Reg) -> (r: bool)
        ensures
            r == (self@ == other@),
    {
        self.class == other.class && same_text(self.name, other.name)
    }
}

/// Whether `regs` names `r`.
pub open spec fn holds(regs: Seq<Reg>, r: Reg) -> bool {
    exists|i: int| 0 <= i < regs.len() && (#[trigger] regs[i])@ == r@
}

/// Whether every register of `regs` is of `class`.
pub open spec fn all_of(regs: Seq<Reg>, class: Class) -> bool {
    forall|i: int| 0 <= i < regs.len() ==> (#[trigger] regs[i]).class == class
}

/// Whether `a` and `b` name no register in common.
pub open spec fn apart(a: Seq<Reg>, b: Seq<Reg>) -> bool {
    forall|i: int| 0 <= i < a.len() ==> !holds(b, #[trigger] a[i])
}

/// Whether every register of `a` is one `b` names.
pub open spec fn within(a: Seq<Reg>, b: Seq<Reg>) -> bool {
    forall|i: int| 0 <= i < a.len() ==> holds(b, #[trigger] a[i])
}

/// What a vector holds on a target: its name and how wide a vector is there.
/// A target with no vectors names no architecture either.
#[derive(Debug, Clone, Copy, PartialEq, Eq)]
pub struct Target {
    pub name: &'static str,
    pub bytes: usize,
}

#[derive(Debug, Clone, PartialEq, Eq)]
pub struct Machine {
    pub name: &'static str,
    /// A pointer, in bytes.
    pub word: usize,
    /// What the stack pointer stays a multiple of across a call.
    pub stack: usize,
    /// What holds the frame, and what holds the top of the stack.
    pub frame: Reg,
    pub sp: Reg,
    /// Every register an allocator may hand out, in the order it prefers them.
    pub ints: Vec<Reg>,
    pub floats: Vec<Reg>,
    /// Where a call's arguments go, counted separately in the two files, and
    /// where its answer comes back.
    pub args: Vec<Reg>,
    pub fargs: Vec<Reg>,
    pub ret: Reg,
    pub fret: Reg,
    /// What survives a call and what does not.
    pub saved: Vec<Reg>,
    pub clobbered: Vec<Reg>,
    /// What an emitter works through and an allocator never hands out.
    pub scratch: Vec<Reg>,
    pub fscratch: Vec<Reg>,
    pub vectors: Target,
}

impl Machine {
    /// Every register an allocator may hand out.
    pub open spec fn allocatable(&self) -> Seq<Reg> {
        self.ints@ + self.floats@
    }

    /// What an allocator and an emitter lean on without asking: each file
    /// holds its own class, every allocatable register is saved or clobbered
    /// and not both, arguments and answers go in allocatable registers that a
    /// call does not keep, and the frame, the stack pointer and the scratch
    /// registers are never handed out.
    pub open spec fn consistent(&self) -> bool {
        &&& self.word > 0
        &&& self.stack > 0
        &&& all_of(self.ints@, Class::Int)
        &&& all_of(self.floats@, Class::Float)
        &&& all_of(self.args@, Class::Int)
        &&& all_of(self.fargs@, Class::Float)
        &&& all_of(self.scratch@, Class::Int)
        &&& all_of(self.fscratch@, Class::Float)
        &&& self.ret.class == Class::Int
        &&& self.fret.class == Class::Float
        &&& forall|i: int|
            0 <= i < self.allocatable().len() ==> (holds(self.saved@, #[trigger] self.allocatable()[i])
                != holds(self.clobbered@, self.allocatable()[i]))
        &&& within(self.args@, self.allocatable())
        &&& within(self.fargs@, self.allocatable())
        &&& holds(self.allocatable(), self.ret)
        &&& holds(self.allocatable(), self.fret)
        &&& apart(self.args@, self.saved@)
        &&& apart(self.fargs@, self.saved@)
        &&& !holds(self.allocatable(), self.frame)
        &&& !holds(self.allocatable(), self.sp)
        &&& self.sp@ != self.frame@
        &&& self.scratch@.len() >= 2
        &&& self.fscratch@.len() >= 2
        &&& apart(self.scratch@, self.allocatable())
        &&& apart(self.fscratch@, self.allocatable())
        &&& apart(self.scratch@, self.saved@)
        &&& apart(self.fscratch@, self.saved@)
    }
}

/// Whether `regs` names `r`.
pub fn names(regs: &Vec<Reg>, r: &Reg) -> (b: bool)
    ensures
        b == holds(regs@, *r),
{
    let mut i: usize = 0;
    while i < regs.len()
        invariant
            i <= regs.len(),
            forall|j: int| 0 <= j < i ==> regs@[j]@ != r@,
        decreases regs.len() - i,
    {
        if regs[i].same(r) {
            return true;
        }
        i = i + 1;
    }
    false
}

/// Whether every register of `regs` is of `class`.
fn every_of(regs: &Vec<Reg>, class: Class) -> (b: bool)
    ensures
        b == all_of(regs@, class),
{
    let mut i: usize = 0;
    while i < regs.len()
        invariant
            i <= regs.len(),
            forall|j: int| 0 <= j < i ==> (#[trigger] regs@[j]).class == class,
        decreases regs.len() - i,
    {
        if regs[i].class != class {
            return false;
        }
        i = i + 1;
    }
    true
}

/// Whether every register of `a` is one `b` names.
fn every_within(a: &Vec<Reg>, b: &Vec<Reg>) -> (r: bool)
    ensures
        r == within(a@, b@),
{
    let mut i: usize = 0;
    while i < a.len()
        invariant
            i <= a.len(),
            forall|j: int| 0 <= j < i ==> holds(b@, #[trigger] a@[j]),
        decreases a.len() - i,
    {
        if !names(b, &a[i]) {
            return false;
        }
        i = i + 1;
    }
    true
}

/// Whether `a` and `b` name no register in common.
fn none_shared(a: &Vec<Reg>, b: &Vec<Reg>) -> (r: bool)
    ensures
        r == apart(a@, b@),
{
    let mut i: usize = 0;
    while i < a.len()
        invariant
            i <= a.len(),
            forall|j: int| 0 <= j < i ==> !holds(b@, #[trigger] a@[j]),
        decreases a.len() - i,
    {
        if names(b, &a[i]) {
            return false;
        }
        i = i + 1;
    }
    true
}

/// Whether no register is named twice in `regs`.
pub open spec fn distinct(regs: Seq<Reg>) -> bool {
    forall|i: int, j: int| 0 <= i < j < regs.len() ==> (#[trigger] regs[i])@ != (#[trigger] regs[j])@
}

fn all_distinct(regs: &Vec<Reg>) -> (r: bool)
    ensures
        r == distinct(regs@),
{
    let mut j: usize = 0;
    while j < regs.len()
        invariant
            j <= regs.len(),
            forall|a: int, b: int| 0 <= a < b < j ==> (#[trigger] regs@[a])@ != (#[trigger] regs@[b])@,
        decreases regs.len() - j,
    {
        let mut i: usize = 0;
        while i < j
            invariant
                i <= j < regs.len(),
                forall|a: int| 0 <= a < i ==> (#[trigger] regs@[a])@ != regs@[j as int]@,
            decreases j - i,
        {
            if regs[i].same(&regs[j]) {
                return false;
            }
            i = i + 1;
        }
        j = j + 1;
    }
    true
}

impl Machine {
    /// Every register an allocator may hand out, integers first.
    pub fn allocatable_regs(&self) -> (v: Vec<Reg>)
        ensures
            v@ == self.allocatable(),
    {
        let mut v: Vec<Reg> = Vec::new();
        let mut i: usize = 0;
        while i < self.ints.len()
            invariant
                i <= self.ints.len(),
                v@ == self.ints@.subrange(0, i as int),
            decreases self.ints.len() - i,
        {
            v.push(self.ints[i]);
            i = i + 1;
        }
        let mut k: usize = 0;
        while k < self.floats.len()
            invariant
                k <= self.floats.len(),
                v@ == self.ints@ + self.floats@.subrange(0, k as int),
            decreases self.floats.len() - k,
        {
            v.push(self.floats[k]);
            k = k + 1;
        }
        proof {
            assert(self.ints@.subrange(0, self.ints@.len() as int) =~= self.ints@);
            assert(self.floats@.subrange(0, self.floats@.len() as int) =~= self.floats@);
        }
        v
    }

    /// Whether the description holds to every rule `consistent` names, and
    /// names no allocatable register twice.
    pub fn check(&self) -> (r: bool)
        ensures
            r == (self.consistent() && distinct(self.allocatable())),
    {
        let all = self.allocatable_regs();
        let mut i: usize = 0;
        let mut xor = true;
        while i < all.len()
            invariant
                i <= all.len(),
                all@ == self.allocatable(),
                xor == (forall|j: int| 0 <= j < i ==> (holds(self.saved@, #[trigger] all@[j]) != holds(self.clobbered@, all@[j]))),
            decreases all.len() - i,
        {
            let a = names(&self.saved, &all[i]);
            let b = names(&self.clobbered, &all[i]);
            if a == b {
                xor = false;
            }
            i = i + 1;
        }
        let frame_free = !names(&all, &self.frame);
        let sp_free = !names(&all, &self.sp);
        self.word > 0 && self.stack > 0 && every_of(&self.ints, Class::Int)
            && every_of(&self.floats, Class::Float) && every_of(&self.args, Class::Int)
            && every_of(&self.fargs, Class::Float) && every_of(&self.scratch, Class::Int)
            && every_of(&self.fscratch, Class::Float) && self.ret.class == Class::Int
            && self.fret.class == Class::Float && xor && every_within(&self.args, &all)
            && every_within(&self.fargs, &all) && names(&all, &self.ret) && names(&all, &self.fret)
            && none_shared(&self.args, &self.saved) && none_shared(&self.fargs, &self.saved)
            && frame_free && sp_free && !self.sp.same(&self.frame) && self.scratch.len() >= 2
            && self.fscratch.len() >= 2 && none_shared(&self.scratch, &all) && none_shared(
            &self.fscratch,
            &all,
        ) && none_shared(&self.scratch, &self.saved) && none_shared(&self.fscratch, &self.saved)
            && all_distinct(&all)
    }
}

/// An integer register.
fn ireg(name: &'static str) -> (r: Reg)
    ensures
        r.name == name,
        r.class == Class::Int,
{
    Reg { name, class: Class::Int }
}

/// A floating-point register.
fn freg(name: &'static str) -> (r: Reg)
    ensures
        r.name == name,
        r.class == Class::Float,
{
    Reg { name, class: Class::Float }
}

/// A list of registers of one class, by name.
pub open spec fn regs_named(names: Seq<&'static str>, class: Class) -> Seq<Reg> {
    Seq::new(names.len(), |i: int| Reg { name: names[i], class })
}

fn regs(names: Vec<&'static str>, class: Class) -> (v: Vec<Reg>)
    ensures
        v@ == regs_named(names@, class),
{
    let mut v: Vec<Reg> = Vec::new();
    let mut i: usize = 0;
    while i < names.len()
        invariant
            i <= names.len(),
            v@ =~= regs_named(names@.subrange(0, i as int), class),
        decreases names.len() - i,
    {
        v.push(Reg { name: names[i], class });
        i = i + 1;
    }
    proof {
        assert(names@.subrange(0, names@.len() as int) =~= names@);
    }
    v
}

fn joined(a: Vec<Reg>, b: Vec<Reg>) -> (v: Vec<Reg>)
    ensures
        v@ == a@ + b@,
{
    let mut v = a;
    let mut b = b;
    v.append(&mut b);
    v
}

/// What one machine description is, written out: its name, the frame and
/// stack pointers, and every list by the names in it. Every machine keeps a
/// word of eight bytes and a stack aligned to sixteen.
pub open spec fn laid_out(
    m: Machine,
    name: &'static str,
    frame: &'static str,
    sp: &'static str,
    ints: Seq<&'static str>,
    floats: Seq<&'static str>,
    args: Seq<&'static str>,
    fargs: Seq<&'static str>,
    ret: &'static str,
    fret: &'static str,
    saved: (Seq<&'static str>, Seq<&'static str>),
    clobbered: (Seq<&'static str>, Seq<&'static str>),
    scratch: Seq<&'static str>,
    fscratch: Seq<&'static str>,
    vectors: Target,
) -> bool {
    &&& m.name == name
    &&& m.word == 8
    &&& m.stack == 16
    &&& m.frame == (Reg { name: frame, class: Class::Int })
    &&& m.sp == (Reg { name: sp, class: Class::Int })
    &&& m.ints@ == regs_named(ints, Class::Int)
    &&& m.floats@ == regs_named(floats, Class::Float)
    &&& m.args@ == regs_named(args, Class::Int)
    &&& m.fargs@ == regs_named(fargs, Class::Float)
    &&& m.ret == (Reg { name: ret, class: Class::Int })
    &&& m.fret == (Reg { name: fret, class: Class::Float })
    &&& m.saved@ == regs_named(saved.0, Class::Int) + regs_named(saved.1, Class::Float)
    &&& m.clobbered@ == regs_named(clobbered.0, Class::Int) + regs_named(clobbered.1, Class::Float)
    &&& m.scratch@ == regs_named(scratch, Class::Int)
    &&& m.fscratch@ == regs_named(fscratch, Class::Float)
    &&& m.vectors == vectors
}

/// x86-64 under the System V convention. `rsp` and `rbp` are never handed
/// out, and neither are `r10`, `r11`, `xmm14` and `xmm15`, which are what an
/// emitter works through. Not one float survives a call.
pub open spec fn is_x86_64(m: Machine, vectors: Target) -> bool {
    laid_out(
        m,
        "x86-64",
        "rbp",
        "rsp",
        seq!["rax", "rcx", "rdx", "rsi", "rdi", "r8", "r9", "rbx", "r12", "r13", "r14", "r15"],
        seq![
            "xmm0", "xmm1", "xmm2", "xmm3", "xmm4", "xmm5", "xmm6", "xmm7", "xmm8", "xmm9",
            "xmm10", "xmm11", "xmm12", "xmm13",
        ],
        seq!["rdi", "rsi", "rdx", "rcx", "r8", "r9"],
        seq!["xmm0", "xmm1", "xmm2", "xmm3", "xmm4", "xmm5", "xmm6", "xmm7"],
        "rax",
        "xmm0",
        (seq!["rbx", "r12", "r13", "r14", "r15"], seq![]),
        (
            seq!["rax", "rcx", "rdx", "rsi", "rdi", "r8", "r9"],
            seq![
                "xmm0", "xmm1", "xmm2", "xmm3", "xmm4", "xmm5", "xmm6", "xmm7", "xmm8", "xmm9",
                "xmm10", "xmm11", "xmm12", "xmm13",
            ],
        ),
        seq!["r10", "r11"],
        seq!["xmm14", "xmm15"],
        vectors,
    )
}

/// aarch64 under AAPCS64. `x29` holds the frame and `x30` the link, so
/// neither is handed out; `x18` is the platform's; `x16`, `x17`, `d16` and
/// `d17` are what an emitter works through. The bottom halves of `d8`
/// through `d15` survive a call, and they are counted as saved whole.
pub open spec fn is_aarch64(m: Machine, vectors: Target) -> bool {
    laid_out(
        m,
        "aarch64",
        "x29",
        "sp",
        seq![
            "x0", "x1", "x2", "x3", "x4", "x5", "x6", "x7", "x9", "x10", "x11", "x12", "x13",
            "x14", "x15", "x19", "x20", "x21", "x22", "x23", "x24", "x25", "x26", "x27", "x28",
        ],
        seq![
            "d0", "d1", "d2", "d3", "d4", "d5", "d6", "d7", "d8", "d9", "d10", "d11", "d12",
            "d13", "d14", "d15",
        ],
        seq!["x0", "x1", "x2", "x3", "x4", "x5", "x6", "x7"],
        seq!["d0", "d1", "d2", "d3", "d4", "d5", "d6", "d7"],
        "x0",
        "d0",
        (
            seq!["x19", "x20", "x21", "x22", "x23", "x24", "x25", "x26", "x27", "x28"],
            seq!["d8", "d9", "d10", "d11", "d12", "d13", "d14", "d15"],
        ),
        (
            seq![
                "x0", "x1", "x2", "x3", "x4", "x5", "x6", "x7", "x9", "x10", "x11", "x12", "x13",
                "x14", "x15",
            ],
            seq!["d0", "d1", "d2", "d3", "d4", "d5", "d6", "d7"],
        ),
        seq!["x16", "x17", "x8"],
        seq!["d16", "d17"],
        vectors,
    )
}

/// riscv64 under LP64D. `s0` holds the frame, `ra` the return address, and
/// `zero`, `gp` and `tp` are nobody's to hand out; `t0` through `t2`, `ft0` and
/// `ft1` are what an emitter works through. `a0` answers where the first
/// argument arrived.
pub open spec fn is_riscv64(m: Machine, vectors: Target) -> bool {
    laid_out(
        m,
        "riscv64",
        "s0",
        "sp",
        seq![
            "a0", "a1", "a2", "a3", "a4", "a5", "a6", "a7", "t3", "t4", "t5", "t6", "s1", "s2",
            "s3", "s4", "s5", "s6", "s7", "s8", "s9", "s10", "s11",
        ],
        seq![
            "fa0", "fa1", "fa2", "fa3", "fa4", "fa5", "fa6", "fa7", "ft2", "ft3", "ft4", "ft5",
            "ft6", "ft7", "ft8", "ft9", "ft10", "ft11", "fs0", "fs1", "fs2", "fs3", "fs4", "fs5",
            "fs6", "fs7", "fs8", "fs9", "fs10", "fs11",
        ],
        seq!["a0", "a1", "a2", "a3", "a4", "a5", "a6", "a7"],
        seq!["fa0", "fa1", "fa2", "fa3", "fa4", "fa5", "fa6", "fa7"],
        "a0",
        "fa0",
        (
            seq!["s1", "s2", "s3", "s4", "s5", "s6", "s7", "s8", "s9", "s10", "s11"],
            seq![
                "fs0", "fs1", "fs2", "fs3", "fs4", "fs5", "fs6", "fs7", "fs8", "fs9", "fs10",
                "fs11",
            ],
        ),
        (
            seq!["a0", "a1", "a2", "a3", "a4", "a5", "a6", "a7", "t3", "t4", "t5", "t6"],
            seq![
                "fa0", "fa1", "fa2", "fa3", "fa4", "fa5", "fa6", "fa7", "ft2", "ft3", "ft4",
                "ft5", "ft6", "ft7", "ft8", "ft9", "ft10", "ft11",
            ],
        ),
        seq!["t0", "t1", "t2"],
        seq!["ft0", "ft1"],
        vectors,
    )
}

pub fn x86_64() -> (m: Machine)
    ensures
        is_x86_64(m, Target { name: "x86-64", bytes: 16 }),
        m.consistent(),
        distinct(m.allocatable()),
{
    let m = Machine {
        name: "x86-64",
        word: 8,
        stack: 16,
        frame: Reg { name: "rbp", class: Class::Int },
        sp: Reg { name: "rsp", class: Class::Int },
        ints: regs(
            vec!["rax", "rcx", "rdx", "rsi", "rdi", "r8", "r9", "rbx", "r12", "r13", "r14", "r15"],
            Class::Int,
        ),
        floats: regs(
            vec![
                "xmm0", "xmm1", "xmm2", "xmm3", "xmm4", "xmm5", "xmm6", "xmm7", "xmm8", "xmm9",
                "xmm10", "xmm11", "xmm12", "xmm13",
            ],
            Class::Float,
        ),
        args: regs(vec!["rdi", "rsi", "rdx", "rcx", "r8", "r9"], Class::Int),
        fargs: regs(
            vec!["xmm0", "xmm1", "xmm2", "xmm3", "xmm4", "xmm5", "xmm6", "xmm7"],
            Class::Float,
        ),
        ret: Reg { name: "rax", class: Class::Int },
        fret: Reg { name: "xmm0", class: Class::Float },
        saved: joined(regs(vec!["rbx", "r12", "r13", "r14", "r15"], Class::Int), regs(vec![], Class::Float)),
        clobbered: joined(
            regs(vec!["rax", "rcx", "rdx", "rsi", "rdi", "r8", "r9"], Class::Int),
            regs(
                vec![
                    "xmm0", "xmm1", "xmm2", "xmm3", "xmm4", "xmm5", "xmm6", "xmm7", "xmm8",
                    "xmm9", "xmm10", "xmm11", "xmm12", "xmm13",
                ],
                Class::Float,
            ),
        ),
        scratch: regs(vec!["r10", "r11"], Class::Int),
        fscratch: regs(vec!["xmm14", "xmm15"], Class::Float),
        vectors: Target { name: "x86-64", bytes: 16 },
    };
    proof {
        x86_64_holds_together(m, Target { name: "x86-64", bytes: 16 });
    }
    m
}

pub fn aarch64() -> (m: Machine)
    ensures
        is_aarch64(m, Target { name: "aarch64", bytes: 16 }),
        m.consistent(),
        distinct(m.allocatable()),
{
    let m = Machine {
        name: "aarch64",
        word: 8,
        stack: 16,
        frame: Reg { name: "x29", class: Class::Int },
        sp: Reg { name: "sp", class: Class::Int },
        ints: regs(vec![
            "x0", "x1", "x2", "x3", "x4", "x5", "x6", "x7", "x9", "x10", "x11", "x12", "x13",
            "x14", "x15", "x19", "x20", "x21", "x22", "x23", "x24", "x25", "x26", "x27", "x28",
        ], Class::Int),
        floats: regs(vec![
            "d0", "d1", "d2", "d3", "d4", "d5", "d6", "d7", "d8", "d9", "d10", "d11", "d12",
            "d13", "d14", "d15",
        ], Class::Float),
        args: regs(vec!["x0", "x1", "x2", "x3", "x4", "x5", "x6", "x7"], Class::Int),
        fargs: regs(vec!["d0", "d1", "d2", "d3", "d4", "d5", "d6", "d7"], Class::Float),
        ret: Reg { name: "x0", class: Class::Int },
        fret: Reg { name: "d0", class: Class::Float },
        saved: joined(regs(vec!["x19", "x20", "x21", "x22", "x23", "x24", "x25", "x26", "x27", "x28"], Class::Int), regs(vec!["d8", "d9", "d10", "d11", "d12", "d13", "d14", "d15"], Class::Float)),
        clobbered: joined(regs(vec![
                "x0", "x1", "x2", "x3", "x4", "x5", "x6", "x7", "x9", "x10", "x11", "x12", "x13",
                "x14", "x15",
            ], Class::Int), regs(vec!["d0", "d1", "d2", "d3", "d4", "d5", "d6", "d7"], Class::Float)),
        scratch: regs(vec!["x16", "x17", "x8"], Class::Int),
        fscratch: regs(vec!["d16", "d17"], Class::Float),
        vectors: Target { name: "aarch64", bytes: 16 },
    };
    proof {
        aarch64_holds_together(m, Target { name: "aarch64", bytes: 16 });
    }
    m
}

pub fn riscv64() -> (m: Machine)
    ensures
        is_riscv64(m, Target { name: "riscv64", bytes: 0 }),
        m.consistent(),
        distinct(m.allocatable()),
{
    let m = Machine {
        name: "riscv64",
        word: 8,
        stack: 16,
        frame: Reg { name: "s0", class: Class::Int },
        sp: Reg { name: "sp", class: Class::Int },
        ints: regs(vec![
            "a0", "a1", "a2", "a3", "a4", "a5", "a6", "a7", "t3", "t4", "t5", "t6", "s1", "s2",
            "s3", "s4", "s5", "s6", "s7", "s8", "s9", "s10", "s11",
        ], Class::Int),
        floats: regs(vec![
            "fa0", "fa1", "fa2", "fa3", "fa4", "fa5", "fa6", "fa7", "ft2", "ft3", "ft4", "ft5",
            "ft6", "ft7", "ft8", "ft9", "ft10", "ft11", "fs0", "fs1", "fs2", "fs3", "fs4", "fs5",
            "fs6", "fs7", "fs8", "fs9", "fs10", "fs11",
        ], Class::Float),
        args: regs(vec!["a0", "a1", "a2", "a3", "a4", "a5", "a6", "a7"], Class::Int),
        fargs: regs(vec!["fa0", "fa1", "fa2", "fa3", "fa4", "fa5", "fa6", "fa7"], Class::Float),
        ret: Reg { name: "a0", class: Class::Int },
        fret: Reg { name: "fa0", class: Class::Float },
        saved: joined(regs(vec!["s1", "s2", "s3", "s4", "s5", "s6", "s7", "s8", "s9", "s10", "s11"], Class::Int), regs(vec![
                "fs0", "fs1", "fs2", "fs3", "fs4", "fs5", "fs6", "fs7", "fs8", "fs9", "fs10",
                "fs11",
            ], Class::Float)),
        clobbered: joined(regs(vec!["a0", "a1", "a2", "a3", "a4", "a5", "a6", "a7", "t3", "t4", "t5", "t6"], Class::Int), regs(vec![
                "fa0", "fa1", "fa2", "fa3", "fa4", "fa5", "fa6", "fa7", "ft2", "ft3", "ft4",
                "ft5", "ft6", "ft7", "ft8", "ft9", "ft10", "ft11",
            ], Class::Float)),
        scratch: regs(vec!["t0", "t1", "t2"], Class::Int),
        fscratch: regs(vec!["ft0", "ft1"], Class::Float),
        vectors: Target { name: "riscv64", bytes: 0 },
    };
    proof {
        riscv64_holds_together(m, Target { name: "riscv64", bytes: 0 });
    }
    m
}

impl Machine {
    /// Whether a call leaves this register alone.
    pub fn keeps(&self, reg: Reg) -> (r: bool)
        ensures
            r == holds(self.saved@, reg),
    {
        names(&self.saved, &reg)
    }

    /// The file a class is allocated out of.
    pub fn file(&self, class: Class) -> (r: &[Reg])
        ensures
            r@ == (match class {
                Class::Int => self.ints@,
                Class::Float => self.floats@,
            }),
    {
        match class {
            Class::Int => self.ints.as_slice(),
            Class::Float => self.floats.as_slice(),
        }
    }

    /// Where the arguments of a class go, in order.
    pub fn passing(&self, class: Class) -> (r: &[Reg])
        ensures
            r@ == (match class {
                Class::Int => self.args@,
                Class::Float => self.fargs@,
            }),
    {
        match class {
            Class::Int => self.args.as_slice(),
            Class::Float => self.fargs.as_slice(),
        }
    }

    /// Where an answer of a class comes back.
    pub fn answering(&self, class: Class) -> (r: Reg)
        ensures
            r == (match class {
                Class::Int => self.ret,
                Class::Float => self.fret,
            }),
    {
        match class {
            Class::Int => self.ret,
            Class::Float => self.fret,
        }
    }

    /// The machine a target names. The vector variants of x86-64 are one
    /// machine carrying a different `Target`, which is why this takes a
    /// `Target` and not a name. A target that names no vectors names no
    /// architecture either, and `host` -- the machine this compiler runs on --
    /// stands in for it.
    pub fn of(t: Target, host: Machine) -> (m: Machine)
        ensures
            t.name@ == "aarch64"@ ==> is_aarch64(m, t),
            t.name@ == "riscv64"@ ==> is_riscv64(m, t),
            t.name@ == "none"@ ==> m == (Machine { vectors: t, ..host }),
            t.name@ != "aarch64"@ && t.name@ != "riscv64"@ && t.name@ != "none"@ ==> is_x86_64(m, t),
            t.name@ != "none"@ ==> m.consistent() && distinct(m.allocatable()),
    {
        proof {
            reveal_strlit("aarch64");
            reveal_strlit("riscv64");
            reveal_strlit("none");
            assert("aarch64"@[0] != "riscv64"@[0]);
            assert("aarch64"@.len() != "none"@.len());
            assert("riscv64"@.len() != "none"@.len());
        }
        let mut held = if same_text(t.name, "aarch64") {
            aarch64()
        } else if same_text(t.name, "riscv64") {
            riscv64()
        } else if same_text(t.name, "none") {
            host
        } else {
            x86_64()
        };
        held.vectors = t;
        proof {
            if t.name@ == "aarch64"@ {
                aarch64_holds_together(held, t);
            } else if t.name@ == "riscv64"@ {
                riscv64_holds_together(held, t);
            } else if t.name@ != "none"@ {
                x86_64_holds_together(held, t);
            }
        }
        held
    }
}

// ---- Why the three machines hold together ------------------------------------

/// Whether two register names are told apart by their lengths or by one of
/// their first five characters, which is how every name here differs from
/// every other.
pub open spec fn differ(a: Seq<char>, b: Seq<char>) -> bool {
    a.len() != b.len() || a[0] != b[0] || a[1] != b[1] || a[2] != b[2] || a[3] != b[3] || a[4] != b[4]
}

/// Whether none of the first `k` names is `x`.
pub open spec fn absent(names: Seq<&'static str>, x: Seq<char>, k: int) -> bool
    decreases k,
{
    if k <= 0 {
        true
    } else {
        differ(names[k - 1]@, x) && absent(names, x, k - 1)
    }
}

/// Whether one of the first `k` names is `x`.
pub open spec fn present(names: Seq<&'static str>, x: Seq<char>, k: int) -> bool
    decreases k,
{
    if k <= 0 {
        false
    } else {
        names[k - 1]@ == x || present(names, x, k - 1)
    }
}

/// Whether none of the first `k` of `xs` is among `names`.
pub open spec fn each_absent(xs: Seq<&'static str>, names: Seq<&'static str>, k: int) -> bool
    decreases k,
{
    if k <= 0 {
        true
    } else {
        absent(names, xs[k - 1]@, names.len() as int) && each_absent(xs, names, k - 1)
    }
}

/// Whether each of the first `k` of `xs` is among `names`.
pub open spec fn each_present(xs: Seq<&'static str>, names: Seq<&'static str>, k: int) -> bool
    decreases k,
{
    if k <= 0 {
        true
    } else {
        present(names, xs[k - 1]@, names.len() as int) && each_present(xs, names, k - 1)
    }
}

/// Whether no two of the first `k` names are one.
pub open spec fn each_apart(names: Seq<&'static str>, k: int) -> bool
    decreases k,
{
    if k <= 0 {
        true
    } else {
        absent(names, names[k - 1]@, k - 1) && each_apart(names, k - 1)
    }
}

/// Whether each of the first `k` of `xs` is among exactly one of `a` and `b`.
pub open spec fn each_one(xs: Seq<&'static str>, a: Seq<&'static str>, b: Seq<&'static str>, k: int) -> bool
    decreases k,
{
    if k <= 0 {
        true
    } else {
        let x = xs[k - 1]@;
        ((present(a, x, a.len() as int) && absent(b, x, b.len() as int)) || (absent(a, x, a.len() as int) && present(
            b,
            x,
            b.len() as int,
        ))) && each_one(xs, a, b, k - 1)
    }
}

proof fn absent_is(names: Seq<&'static str>, x: Seq<char>, k: int)
    requires
        absent(names, x, k),
    ensures
        forall|i: int| 0 <= i < k ==> (#[trigger] names[i])@ != x,
    decreases k,
{
    if k > 0 {
        absent_is(names, x, k - 1);
    }
}

proof fn present_is(names: Seq<&'static str>, x: Seq<char>, k: int)
    requires
        present(names, x, k),
    ensures
        exists|i: int| 0 <= i < k && (#[trigger] names[i])@ == x,
    decreases k,
{
    if names[k - 1]@ != x {
        present_is(names, x, k - 1);
    }
}

proof fn each_absent_is(xs: Seq<&'static str>, names: Seq<&'static str>, k: int)
    requires
        each_absent(xs, names, k),
    ensures
        forall|i: int| 0 <= i < k ==> absent(names, (#[trigger] xs[i])@, names.len() as int),
    decreases k,
{
    if k > 0 {
        each_absent_is(xs, names, k - 1);
    }
}

proof fn each_present_is(xs: Seq<&'static str>, names: Seq<&'static str>, k: int)
    requires
        each_present(xs, names, k),
    ensures
        forall|i: int| 0 <= i < k ==> present(names, (#[trigger] xs[i])@, names.len() as int),
    decreases k,
{
    if k > 0 {
        each_present_is(xs, names, k - 1);
    }
}

proof fn each_apart_is(names: Seq<&'static str>, k: int)
    requires
        each_apart(names, k),
    ensures
        forall|i: int, j: int| 0 <= i < j < k ==> (#[trigger] names[i])@ != (#[trigger] names[j])@,
    decreases k,
{
    if k > 0 {
        each_apart_is(names, k - 1);
        absent_is(names, names[k - 1]@, k - 1);
    }
}

proof fn each_one_is(xs: Seq<&'static str>, a: Seq<&'static str>, b: Seq<&'static str>, k: int)
    requires
        each_one(xs, a, b, k),
    ensures
        forall|i: int|
            0 <= i < k ==> (present(a, (#[trigger] xs[i])@, a.len() as int) && absent(b, xs[i]@, b.len() as int)) || (absent(
                a,
                xs[i]@,
                a.len() as int,
            ) && present(b, xs[i]@, b.len() as int)),
    decreases k,
{
    if k > 0 {
        each_one_is(xs, a, b, k - 1);
    }
}

/// A register is in a list of one class by name exactly where it is of that
/// class and one of the names is its own.
proof fn holds_named(names: Seq<&'static str>, class: Class, r: Reg)
    ensures
        absent(names, r.name@, names.len() as int) ==> !holds(regs_named(names, class), r),
        present(names, r.name@, names.len() as int) && r.class == class ==> holds(regs_named(names, class), r),
        r.class != class ==> !holds(regs_named(names, class), r),
{
    let rs = regs_named(names, class);
    if absent(names, r.name@, names.len() as int) {
        absent_is(names, r.name@, names.len() as int);
        if holds(rs, r) {
            let i = choose|i: int| 0 <= i < rs.len() && (#[trigger] rs[i])@ == r@;
            assert(names[i]@ != r.name@);
        }
    }
    if present(names, r.name@, names.len() as int) && r.class == class {
        present_is(names, r.name@, names.len() as int);
        let i = choose|i: int| 0 <= i < names.len() && (#[trigger] names[i])@ == r.name@;
        assert(rs[i]@ == r@);
    }
}

/// A register is in two lists one after the other exactly where it is in one
/// of them.
proof fn holds_joined(a: Seq<Reg>, b: Seq<Reg>, r: Reg)
    ensures
        holds(a + b, r) == (holds(a, r) || holds(b, r)),
{
    if holds(a + b, r) {
        let i = choose|i: int| 0 <= i < (a + b).len() && (#[trigger] (a + b)[i])@ == r@;
        if i < a.len() {
            assert((a + b)[i] == a[i]);
        } else {
            assert((a + b)[i] == b[i - a.len()]);
        }
    }
    if holds(a, r) {
        let i = choose|i: int| 0 <= i < a.len() && (#[trigger] a[i])@ == r@;
        assert((a + b)[i] == a[i]);
    }
    if holds(b, r) {
        let i = choose|i: int| 0 <= i < b.len() && (#[trigger] b[i])@ == r@;
        assert((a + b)[a.len() + i] == b[i]);
    }
}

/// What makes a machine written out by `laid_out` consistent, each part a
/// fact about its lists of names alone.
#[verifier::rlimit(40)]
proof fn consistent_when(
    m: Machine,
    name: &'static str,
    frame: &'static str,
    sp: &'static str,
    ints: Seq<&'static str>,
    floats: Seq<&'static str>,
    args: Seq<&'static str>,
    fargs: Seq<&'static str>,
    ret: &'static str,
    fret: &'static str,
    saved: (Seq<&'static str>, Seq<&'static str>),
    clobbered: (Seq<&'static str>, Seq<&'static str>),
    scratch: Seq<&'static str>,
    fscratch: Seq<&'static str>,
    vectors: Target,
)
    requires
        laid_out(m, name, frame, sp, ints, floats, args, fargs, ret, fret, saved, clobbered, scratch, fscratch, vectors),
        each_apart(ints, ints.len() as int),
        each_apart(floats, floats.len() as int),
        each_one(ints, saved.0, clobbered.0, ints.len() as int),
        each_one(floats, saved.1, clobbered.1, floats.len() as int),
        each_present(args, ints, args.len() as int),
        each_present(fargs, floats, fargs.len() as int),
        present(ints, ret@, ints.len() as int),
        present(floats, fret@, floats.len() as int),
        each_absent(args, saved.0, args.len() as int),
        each_absent(fargs, saved.1, fargs.len() as int),
        absent(ints, frame@, ints.len() as int),
        absent(ints, sp@, ints.len() as int),
        differ(sp@, frame@),
        scratch.len() >= 2,
        fscratch.len() >= 2,
        each_absent(scratch, ints, scratch.len() as int),
        each_absent(fscratch, floats, fscratch.len() as int),
        each_absent(scratch, saved.0, scratch.len() as int),
        each_absent(fscratch, saved.1, fscratch.len() as int),
    ensures
        m.consistent(),
        distinct(m.allocatable()),
{
    let (iv, fv) = (regs_named(ints, Class::Int), regs_named(floats, Class::Float));
    let sv = regs_named(saved.0, Class::Int) + regs_named(saved.1, Class::Float);
    let cv = regs_named(clobbered.0, Class::Int) + regs_named(clobbered.1, Class::Float);
    assert(m.allocatable() == iv + fv);
    each_apart_is(ints, ints.len() as int);
    each_apart_is(floats, floats.len() as int);
    each_one_is(ints, saved.0, clobbered.0, ints.len() as int);
    each_one_is(floats, saved.1, clobbered.1, floats.len() as int);
    each_present_is(args, ints, args.len() as int);
    each_present_is(fargs, floats, fargs.len() as int);
    each_absent_is(args, saved.0, args.len() as int);
    each_absent_is(fargs, saved.1, fargs.len() as int);
    each_absent_is(scratch, ints, scratch.len() as int);
    each_absent_is(fscratch, floats, fscratch.len() as int);
    each_absent_is(scratch, saved.0, scratch.len() as int);
    each_absent_is(fscratch, saved.1, fscratch.len() as int);
    let al = iv + fv;
    assert forall|i: int, j: int| 0 <= i < j < al.len() implies (#[trigger] al[i])@ != (#[trigger] al[j])@ by {
        if j < iv.len() {
            assert(al[i] == iv[i] && al[j] == iv[j]);
            assert(ints[i]@ != ints[j]@);
        } else if i >= iv.len() {
            assert(al[i] == fv[i - iv.len()] && al[j] == fv[j - iv.len()]);
            assert(floats[i - iv.len()]@ != floats[j - iv.len()]@);
        } else {
            assert(al[i] == iv[i] && al[j] == fv[j - iv.len()]);
        }
    }
    assert forall|i: int| 0 <= i < al.len() implies (holds(m.saved@, #[trigger] al[i]) != holds(m.clobbered@, al[i])) by {
        let r = al[i];
        holds_joined(regs_named(saved.0, Class::Int), regs_named(saved.1, Class::Float), r);
        holds_joined(regs_named(clobbered.0, Class::Int), regs_named(clobbered.1, Class::Float), r);
        holds_named(saved.0, Class::Int, r);
        holds_named(saved.1, Class::Float, r);
        holds_named(clobbered.0, Class::Int, r);
        holds_named(clobbered.1, Class::Float, r);
        if i < iv.len() {
            assert(al[i] == iv[i]);
            assert(r.name == ints[i]);
        } else {
            assert(al[i] == fv[i - iv.len()]);
            assert(r.name == floats[i - iv.len()]);
        }
    }
    assert forall|i: int| 0 <= i < m.args@.len() implies holds(al, #[trigger] m.args@[i]) by {
        let r = m.args@[i];
        assert(r.name == args[i]);
        holds_joined(iv, fv, r);
        holds_named(ints, Class::Int, r);
    }
    assert forall|i: int| 0 <= i < m.fargs@.len() implies holds(al, #[trigger] m.fargs@[i]) by {
        let r = m.fargs@[i];
        assert(r.name == fargs[i]);
        holds_joined(iv, fv, r);
        holds_named(floats, Class::Float, r);
    }
    holds_joined(iv, fv, m.ret);
    holds_named(ints, Class::Int, m.ret);
    holds_joined(iv, fv, m.fret);
    holds_named(floats, Class::Float, m.fret);
    assert forall|i: int| 0 <= i < m.args@.len() implies !holds(m.saved@, #[trigger] m.args@[i]) by {
        let r = m.args@[i];
        assert(r.name == args[i]);
        holds_joined(regs_named(saved.0, Class::Int), regs_named(saved.1, Class::Float), r);
        holds_named(saved.0, Class::Int, r);
        holds_named(saved.1, Class::Float, r);
    }
    assert forall|i: int| 0 <= i < m.fargs@.len() implies !holds(m.saved@, #[trigger] m.fargs@[i]) by {
        let r = m.fargs@[i];
        assert(r.name == fargs[i]);
        holds_joined(regs_named(saved.0, Class::Int), regs_named(saved.1, Class::Float), r);
        holds_named(saved.0, Class::Int, r);
        holds_named(saved.1, Class::Float, r);
    }
    holds_joined(iv, fv, m.frame);
    holds_named(ints, Class::Int, m.frame);
    holds_named(floats, Class::Float, m.frame);
    holds_joined(iv, fv, m.sp);
    holds_named(ints, Class::Int, m.sp);
    holds_named(floats, Class::Float, m.sp);
    assert forall|i: int| 0 <= i < m.scratch@.len() implies !holds(al, #[trigger] m.scratch@[i]) by {
        let r = m.scratch@[i];
        assert(r.name == scratch[i]);
        holds_joined(iv, fv, r);
        holds_named(ints, Class::Int, r);
        holds_named(floats, Class::Float, r);
    }
    assert forall|i: int| 0 <= i < m.fscratch@.len() implies !holds(al, #[trigger] m.fscratch@[i]) by {
        let r = m.fscratch@[i];
        assert(r.name == fscratch[i]);
        holds_joined(iv, fv, r);
        holds_named(ints, Class::Int, r);
        holds_named(floats, Class::Float, r);
    }
    assert forall|i: int| 0 <= i < m.scratch@.len() implies !holds(m.saved@, #[trigger] m.scratch@[i]) by {
        let r = m.scratch@[i];
        assert(r.name == scratch[i]);
        holds_joined(regs_named(saved.0, Class::Int), regs_named(saved.1, Class::Float), r);
        holds_named(saved.0, Class::Int, r);
        holds_named(saved.1, Class::Float, r);
    }
    assert forall|i: int| 0 <= i < m.fscratch@.len() implies !holds(m.saved@, #[trigger] m.fscratch@[i]) by {
        let r = m.fscratch@[i];
        assert(r.name == fscratch[i]);
        holds_joined(regs_named(saved.0, Class::Int), regs_named(saved.1, Class::Float), r);
        holds_named(saved.0, Class::Int, r);
        holds_named(saved.1, Class::Float, r);
    }
}

/// x86-64 is consistent and names no allocatable register
/// twice: every allocatable register is saved or clobbered and not both, the
/// arguments and answers are allocatable registers of their own class that a
/// call does not keep, and the frame pointer, the stack pointer and the
/// scratch registers are never handed out.
pub proof fn x86_64_holds_together(m: Machine, vectors: Target)
    requires
        is_x86_64(m, vectors),
    ensures
        m.consistent(),
        distinct(m.allocatable()),
{
    reveal_strlit("r10");
    reveal_strlit("r11");
    reveal_strlit("r12");
    reveal_strlit("r13");
    reveal_strlit("r14");
    reveal_strlit("r15");
    reveal_strlit("r8");
    reveal_strlit("r9");
    reveal_strlit("rax");
    reveal_strlit("rbp");
    reveal_strlit("rbx");
    reveal_strlit("rcx");
    reveal_strlit("rdi");
    reveal_strlit("rdx");
    reveal_strlit("rsi");
    reveal_strlit("rsp");
    reveal_strlit("x86-64");
    reveal_strlit("xmm0");
    reveal_strlit("xmm1");
    reveal_strlit("xmm10");
    reveal_strlit("xmm11");
    reveal_strlit("xmm12");
    reveal_strlit("xmm13");
    reveal_strlit("xmm14");
    reveal_strlit("xmm15");
    reveal_strlit("xmm2");
    reveal_strlit("xmm3");
    reveal_strlit("xmm4");
    reveal_strlit("xmm5");
    reveal_strlit("xmm6");
    reveal_strlit("xmm7");
    reveal_strlit("xmm8");
    reveal_strlit("xmm9");
    reveal_with_fuel(absent, 40);
    reveal_with_fuel(present, 40);
    reveal_with_fuel(each_absent, 40);
    reveal_with_fuel(each_present, 40);
    reveal_with_fuel(each_apart, 40);
    reveal_with_fuel(each_one, 40);
    consistent_when(m,
        "x86-64",
        "rbp",
        "rsp",
        seq!["rax", "rcx", "rdx", "rsi", "rdi", "r8", "r9", "rbx", "r12", "r13", "r14", "r15"],
        seq![
            "xmm0", "xmm1", "xmm2", "xmm3", "xmm4", "xmm5", "xmm6", "xmm7", "xmm8", "xmm9",
            "xmm10", "xmm11", "xmm12", "xmm13",
        ],
        seq!["rdi", "rsi", "rdx", "rcx", "r8", "r9"],
        seq!["xmm0", "xmm1", "xmm2", "xmm3", "xmm4", "xmm5", "xmm6", "xmm7"],
        "rax",
        "xmm0",
        (seq!["rbx", "r12", "r13", "r14", "r15"], seq![]),
        (
            seq!["rax", "rcx", "rdx", "rsi", "rdi", "r8", "r9"],
            seq![
                "xmm0", "xmm1", "xmm2", "xmm3", "xmm4", "xmm5", "xmm6", "xmm7", "xmm8", "xmm9",
                "xmm10", "xmm11", "xmm12", "xmm13",
            ],
        ),
        seq!["r10", "r11"],
        seq!["xmm14", "xmm15"],
        vectors,);
}

/// aarch64 is consistent and names no allocatable register
/// twice: every allocatable register is saved or clobbered and not both, the
/// arguments and answers are allocatable registers of their own class that a
/// call does not keep, and the frame pointer, the stack pointer and the
/// scratch registers are never handed out.
pub proof fn aarch64_holds_together(m: Machine, vectors: Target)
    requires
        is_aarch64(m, vectors),
    ensures
        m.consistent(),
        distinct(m.allocatable()),
{
    reveal_strlit("aarch64");
    reveal_strlit("d0");
    reveal_strlit("d1");
    reveal_strlit("d10");
    reveal_strlit("d11");
    reveal_strlit("d12");
    reveal_strlit("d13");
    reveal_strlit("d14");
    reveal_strlit("d15");
    reveal_strlit("d16");
    reveal_strlit("d17");
    reveal_strlit("d2");
    reveal_strlit("d3");
    reveal_strlit("d4");
    reveal_strlit("d5");
    reveal_strlit("d6");
    reveal_strlit("d7");
    reveal_strlit("d8");
    reveal_strlit("d9");
    reveal_strlit("sp");
    reveal_strlit("x0");
    reveal_strlit("x1");
    reveal_strlit("x10");
    reveal_strlit("x11");
    reveal_strlit("x12");
    reveal_strlit("x13");
    reveal_strlit("x14");
    reveal_strlit("x15");
    reveal_strlit("x16");
    reveal_strlit("x17");
    reveal_strlit("x19");
    reveal_strlit("x2");
    reveal_strlit("x20");
    reveal_strlit("x21");
    reveal_strlit("x22");
    reveal_strlit("x23");
    reveal_strlit("x24");
    reveal_strlit("x25");
    reveal_strlit("x26");
    reveal_strlit("x27");
    reveal_strlit("x28");
    reveal_strlit("x29");
    reveal_strlit("x3");
    reveal_strlit("x4");
    reveal_strlit("x5");
    reveal_strlit("x6");
    reveal_strlit("x7");
    reveal_strlit("x8");
    reveal_strlit("x9");
    reveal_with_fuel(absent, 40);
    reveal_with_fuel(present, 40);
    reveal_with_fuel(each_absent, 40);
    reveal_with_fuel(each_present, 40);
    reveal_with_fuel(each_apart, 40);
    reveal_with_fuel(each_one, 40);
    consistent_when(m,
        "aarch64",
        "x29",
        "sp",
        seq![
            "x0", "x1", "x2", "x3", "x4", "x5", "x6", "x7", "x9", "x10", "x11", "x12", "x13",
            "x14", "x15", "x19", "x20", "x21", "x22", "x23", "x24", "x25", "x26", "x27", "x28",
        ],
        seq![
            "d0", "d1", "d2", "d3", "d4", "d5", "d6", "d7", "d8", "d9", "d10", "d11", "d12",
            "d13", "d14", "d15",
        ],
        seq!["x0", "x1", "x2", "x3", "x4", "x5", "x6", "x7"],
        seq!["d0", "d1", "d2", "d3", "d4", "d5", "d6", "d7"],
        "x0",
        "d0",
        (
            seq!["x19", "x20", "x21", "x22", "x23", "x24", "x25", "x26", "x27", "x28"],
            seq!["d8", "d9", "d10", "d11", "d12", "d13", "d14", "d15"],
        ),
        (
            seq![
                "x0", "x1", "x2", "x3", "x4", "x5", "x6", "x7", "x9", "x10", "x11", "x12", "x13",
                "x14", "x15",
            ],
            seq!["d0", "d1", "d2", "d3", "d4", "d5", "d6", "d7"],
        ),
        seq!["x16", "x17", "x8"],
        seq!["d16", "d17"],
        vectors,);
}

/// riscv64 is consistent and names no allocatable register
/// twice: every allocatable register is saved or clobbered and not both, the
/// arguments and answers are allocatable registers of their own class that a
/// call does not keep, and the frame pointer, the stack pointer and the
/// scratch registers are never handed out.
#[verifier::spinoff_prover]
#[verifier::rlimit(100)]
pub proof fn riscv64_holds_together(m: Machine, vectors: Target)
    requires
        is_riscv64(m, vectors),
    ensures
        m.consistent(),
        distinct(m.allocatable()),
{
    reveal_strlit("a0");
    reveal_strlit("a1");
    reveal_strlit("a2");
    reveal_strlit("a3");
    reveal_strlit("a4");
    reveal_strlit("a5");
    reveal_strlit("a6");
    reveal_strlit("a7");
    reveal_strlit("fa0");
    reveal_strlit("fa1");
    reveal_strlit("fa2");
    reveal_strlit("fa3");
    reveal_strlit("fa4");
    reveal_strlit("fa5");
    reveal_strlit("fa6");
    reveal_strlit("fa7");
    reveal_strlit("fs0");
    reveal_strlit("fs1");
    reveal_strlit("fs10");
    reveal_strlit("fs11");
    reveal_strlit("fs2");
    reveal_strlit("fs3");
    reveal_strlit("fs4");
    reveal_strlit("fs5");
    reveal_strlit("fs6");
    reveal_strlit("fs7");
    reveal_strlit("fs8");
    reveal_strlit("fs9");
    reveal_strlit("ft0");
    reveal_strlit("ft1");
    reveal_strlit("ft10");
    reveal_strlit("ft11");
    reveal_strlit("ft2");
    reveal_strlit("ft3");
    reveal_strlit("ft4");
    reveal_strlit("ft5");
    reveal_strlit("ft6");
    reveal_strlit("ft7");
    reveal_strlit("ft8");
    reveal_strlit("ft9");
    reveal_strlit("riscv64");
    reveal_strlit("s0");
    reveal_strlit("s1");
    reveal_strlit("s10");
    reveal_strlit("s11");
    reveal_strlit("s2");
    reveal_strlit("s3");
    reveal_strlit("s4");
    reveal_strlit("s5");
    reveal_strlit("s6");
    reveal_strlit("s7");
    reveal_strlit("s8");
    reveal_strlit("s9");
    reveal_strlit("sp");
    reveal_strlit("t0");
    reveal_strlit("t1");
    reveal_strlit("t2");
    reveal_strlit("t3");
    reveal_strlit("t4");
    reveal_strlit("t5");
    reveal_strlit("t6");
    reveal_with_fuel(absent, 40);
    reveal_with_fuel(present, 40);
    reveal_with_fuel(each_absent, 40);
    reveal_with_fuel(each_present, 40);
    reveal_with_fuel(each_apart, 40);
    reveal_with_fuel(each_one, 40);
    assert(absent(seq![
            "fa0", "fa1", "fa2", "fa3", "fa4", "fa5", "fa6", "fa7", "ft2", "ft3", "ft4", "ft5",
            "ft6", "ft7", "ft8", "ft9", "ft10", "ft11", "fs0", "fs1", "fs2", "fs3", "fs4", "fs5",
            "fs6", "fs7", "fs8", "fs9", "fs10", "fs11",
        ], "ft0"@, 30));
    assert(absent(seq![
            "fa0", "fa1", "fa2", "fa3", "fa4", "fa5", "fa6", "fa7", "ft2", "ft3", "ft4", "ft5",
            "ft6", "ft7", "ft8", "ft9", "ft10", "ft11", "fs0", "fs1", "fs2", "fs3", "fs4", "fs5",
            "fs6", "fs7", "fs8", "fs9", "fs10", "fs11",
        ], "ft1"@, 30));
    assert(each_absent(seq!["ft0", "ft1"], seq![
            "fa0", "fa1", "fa2", "fa3", "fa4", "fa5", "fa6", "fa7", "ft2", "ft3", "ft4", "ft5",
            "ft6", "ft7", "ft8", "ft9", "ft10", "ft11", "fs0", "fs1", "fs2", "fs3", "fs4", "fs5",
            "fs6", "fs7", "fs8", "fs9", "fs10", "fs11",
        ], 2));
    consistent_when(m,
        "riscv64",
        "s0",
        "sp",
        seq![
            "a0", "a1", "a2", "a3", "a4", "a5", "a6", "a7", "t3", "t4", "t5", "t6", "s1", "s2",
            "s3", "s4", "s5", "s6", "s7", "s8", "s9", "s10", "s11",
        ],
        seq![
            "fa0", "fa1", "fa2", "fa3", "fa4", "fa5", "fa6", "fa7", "ft2", "ft3", "ft4", "ft5",
            "ft6", "ft7", "ft8", "ft9", "ft10", "ft11", "fs0", "fs1", "fs2", "fs3", "fs4", "fs5",
            "fs6", "fs7", "fs8", "fs9", "fs10", "fs11",
        ],
        seq!["a0", "a1", "a2", "a3", "a4", "a5", "a6", "a7"],
        seq!["fa0", "fa1", "fa2", "fa3", "fa4", "fa5", "fa6", "fa7"],
        "a0",
        "fa0",
        (
            seq!["s1", "s2", "s3", "s4", "s5", "s6", "s7", "s8", "s9", "s10", "s11"],
            seq![
                "fs0", "fs1", "fs2", "fs3", "fs4", "fs5", "fs6", "fs7", "fs8", "fs9", "fs10",
                "fs11",
            ],
        ),
        (
            seq!["a0", "a1", "a2", "a3", "a4", "a5", "a6", "a7", "t3", "t4", "t5", "t6"],
            seq![
                "fa0", "fa1", "fa2", "fa3", "fa4", "fa5", "fa6", "fa7", "ft2", "ft3", "ft4",
                "ft5", "ft6", "ft7", "ft8", "ft9", "ft10", "ft11",
            ],
        ),
        seq!["t0", "t1", "t2"],
        seq!["ft0", "ft1"],
        vectors,);
}

} // verus!
