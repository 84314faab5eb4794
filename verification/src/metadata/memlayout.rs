//! The machine's memory image: code from the bottom, data from the middle,
//! and, for the simulator's file format, a padding byte after each byte.
use vstd::prelude::*;
use crate::encoder::{Instruction, op_code};
use crate::metadata::labelinfo::immediatetrick::ImmediateAddressing;

verus! {

/// The number of addressable bytes of the machine.
pub const SIM_MEM_SIZE: usize = 256;

/// A memory image under construction.
pub struct NeanderMem {
    pub arr: Vec<u8>,
    pub mem_size: usize,
    pub code_seg_byte: usize,
    pub data_seg_byte: usize,
    pub target_sim: bool,
}

/// How many bytes of the image hold one byte of the machine: two in the
/// simulator's format, where each byte is followed by a padding byte.
pub open spec fn stride(target_sim: bool) -> nat {
    if target_sim {
        2
    } else {
        1
    }
}

/// The bytes that encode the first byte of an instruction: the operation
/// code, plus the destination register shifted left by two, plus the source register.
pub open spec fn first_byte(ins: Instruction) -> int {
    16 * op_code(ins.mnemonic) + match ins.destination {
        Some(d) => (d * 4) % 256,
        None => 0,
    } + match ins.source {
        Some(s) => s as int,
        None => 0,
    }
}

/// Whether the first byte of the instruction fits in a byte at each step of its sum.
pub open spec fn first_byte_fits(ins: Instruction) -> bool {
    &&& 16 * op_code(ins.mnemonic) + match ins.destination {
        Some(d) => (d * 4) % 256,
        None => 0,
    } <= 255
    &&& first_byte(ins) <= 255
}

/// The bytes that an instruction occupies in the image.
pub open spec fn instruction_bytes(ins: Instruction, target_sim: bool) -> Seq<u8> {
    let head = if target_sim {
        seq![first_byte(ins) as u8, 0u8]
    } else {
        seq![first_byte(ins) as u8]
    };
    match ins.addr {
        Some(a) => if target_sim {
            head + seq![a, 0u8]
        } else {
            head + seq![a]
        },
        None => head,
    }
}

/// `s` with `w` written over it from position `at`.
pub open spec fn splice(s: Seq<u8>, at: int, w: Seq<u8>) -> Seq<u8> {
    s.take(at) + w + s.skip(at + w.len())
}

/// The image after the immediates have been stored at their addresses, in order.
pub open spec fn store_all(arr: Seq<u8>, data: Seq<ImmediateAddressing>, k: nat) -> Seq<u8>
    decreases data.len(),
{
    if data.len() == 0 {
        arr
    } else {
        store_all(arr, data.drop_last(), k).update(data.last().addr * k, data.last().value)
    }
}

/// Storing immediates at distinct positions leaves each value at its
/// position and every other byte as it was.
pub proof fn lemma_store_all_reads(arr: Seq<u8>, data: Seq<ImmediateAddressing>, k: nat)
    requires
        forall|i: int| 0 <= i < data.len() ==> #[trigger] (data[i].addr * k) < arr.len(),
        forall|i: int, j: int|
            0 <= i < j < data.len() ==> #[trigger] (data[i].addr * k) != #[trigger] (data[j].addr
                * k),
    ensures
        store_all(arr, data, k).len() == arr.len(),
        forall|i: int|
            0 <= i < data.len() ==> #[trigger] store_all(arr, data, k)[data[i].addr * k]
                == data[i].value,
        forall|p: int|
            0 <= p < arr.len() && (forall|i: int| 0 <= i < data.len() ==> #[trigger] (data[i].addr
                * k) != p) ==> #[trigger] store_all(arr, data, k)[p] == arr[p],
    decreases data.len(),
{
    if data.len() > 0 {
        let init = data.drop_last();
        assert forall|i: int| 0 <= i < init.len() implies #[trigger] (init[i].addr * k) < arr.len() by {
            assert(init[i] == data[i]);
        }
        assert forall|i: int, j: int| 0 <= i < j < init.len() implies #[trigger] (init[i].addr * k)
            != #[trigger] (init[j].addr * k) by {
            assert(init[i] == data[i]);
            assert(init[j] == data[j]);
        }
        lemma_store_all_reads(arr, init, k);
        let prev = store_all(arr, init, k);
        let last = data.last();
        assert(data[data.len() - 1] == last);
        assert forall|i: int| 0 <= i < data.len() implies #[trigger] store_all(arr, data, k)[data[i].addr
            * k] == data[i].value by {
            if i < data.len() - 1 {
                assert(init[i] == data[i]);
                assert(data[i].addr * k != data[data.len() - 1].addr * k);
            }
        }
        assert forall|p: int|
            0 <= p < arr.len() && (forall|i: int| 0 <= i < data.len() ==> #[trigger] (data[i].addr
                * k) != p) implies #[trigger] store_all(arr, data, k)[p] == arr[p] by {
            assert forall|i: int| 0 <= i < init.len() implies #[trigger] (init[i].addr * k) != p by {
                assert(init[i] == data[i]);
            }
            assert(data[data.len() - 1].addr * k != p);
        }
    }
}

/// The abstract state of a memory image.
pub struct MemView {
    pub arr: Seq<u8>,
    pub mem_size: nat,
    pub code_seg_byte: nat,
    pub data_seg_byte: nat,
    pub target_sim: bool,
}

impl View for NeanderMem {
    type V = MemView;

    open spec fn view(&self) -> MemView {
        MemView {
            arr: self.arr@,
            mem_size: self.mem_size as nat,
            code_seg_byte: self.code_seg_byte as nat,
            data_seg_byte: self.data_seg_byte as nat,
            target_sim: self.target_sim,
        }
    }
}

/// The position in the image where the data area starts: the middle of
/// the memory, in image bytes.
pub open spec fn data_base(m: MemView) -> nat {
    if m.target_sim {
        (m.mem_size / 2) * 2
    } else {
        m.mem_size / 2
    }
}

/// Whether `ins` can be written at the code position: its first byte fits
/// in a byte and its bytes fit in the image.
pub open spec fn instruction_fits(m: MemView, ins: Instruction) -> bool {
    &&& first_byte_fits(ins)
    &&& m.code_seg_byte + instruction_bytes(ins, m.target_sim).len() <= m.arr.len()
}

/// The image after `ins` is written at the code position, which moves past it.
pub open spec fn put_instruction(m: MemView, ins: Instruction) -> MemView {
    let bytes = instruction_bytes(ins, m.target_sim);
    MemView {
        arr: splice(m.arr, m.code_seg_byte as int, bytes),
        code_seg_byte: m.code_seg_byte + bytes.len(),
        ..m
    }
}

/// The bytes that a data byte occupies in the image.
pub open spec fn data_bytes(d: u8, target_sim: bool) -> Seq<u8> {
    if target_sim {
        seq![d, 0u8]
    } else {
        seq![d]
    }
}

/// Whether a data byte can be written at the data position.
pub open spec fn data_fits(m: MemView) -> bool {
    data_base(m) + m.data_seg_byte + stride(m.target_sim) <= m.arr.len()
}

/// The image after `d` is written at the data position, which moves past it.
pub open spec fn put_data(m: MemView, d: u8) -> MemView {
    MemView {
        arr: splice(m.arr, (data_base(m) + m.data_seg_byte) as int, data_bytes(d, m.target_sim)),
        data_seg_byte: m.data_seg_byte + stride(m.target_sim),
        ..m
    }
}

/// The image after the data bytes `ds` have been written at the data
/// position, one after another.
pub open spec fn put_all_data(m: MemView, ds: Seq<u8>) -> MemView
    decreases ds.len(),
{
    if ds.len() == 0 {
        m
    } else {
        put_data(put_all_data(m, ds.drop_last()), ds.last())
    }
}

/// Where the `i`th data byte written into a new image lands: at address
/// 128 + `i` of the machine, in image bytes.
pub open spec fn data_position(target_sim: bool, i: int) -> int {
    if target_sim {
        256 + 2 * i
    } else {
        128 + i
    }
}

/// Writing up to 128 data bytes into a new image, one after another: each
/// write is admitted, the bytes land in order from address 128, the data
/// position moves past them, the code position stays at the start, and every
/// other byte (the code half and the padding bytes) is still zero.
pub proof fn lemma_data_writes(target_sim: bool, ds: Seq<u8>)
    requires
        ds.len() <= 128,
    ensures
        forall|k: int|
            0 <= k < ds.len() ==> data_fits(
                #[trigger] put_all_data(NeanderMem::initial(target_sim), ds.take(k)),
            ),
        put_all_data(NeanderMem::initial(target_sim), ds).arr.len() == NeanderMem::initial(
            target_sim,
        ).arr.len(),
        put_all_data(NeanderMem::initial(target_sim), ds).data_seg_byte == (if target_sim {
            2 * ds.len()
        } else {
            ds.len()
        }),
        put_all_data(NeanderMem::initial(target_sim), ds).code_seg_byte == 0,
        put_all_data(NeanderMem::initial(target_sim), ds).mem_size == SIM_MEM_SIZE,
        put_all_data(NeanderMem::initial(target_sim), ds).target_sim == target_sim,
        forall|i: int|
            0 <= i < ds.len() ==> put_all_data(NeanderMem::initial(target_sim), ds).arr[
                #[trigger] data_position(target_sim, i)] == ds[i],
        forall|p: int|
            0 <= p < put_all_data(NeanderMem::initial(target_sim), ds).arr.len() && (forall|i: int|
                0 <= i < ds.len() ==> #[trigger] data_position(target_sim, i) != p) ==> #[trigger] put_all_data(
                NeanderMem::initial(target_sim),
                ds,
            ).arr[p] == 0,
    decreases ds.len(),
{
    let init = NeanderMem::initial(target_sim);
    if ds.len() == 0 {
        assert(put_all_data(init, ds) == init);
    } else {
        let n = ds.len() - 1;
        let front = ds.drop_last();
        lemma_data_writes(target_sim, front);
        let prev = put_all_data(init, front);
        let m = put_all_data(init, ds);
        assert(m == put_data(prev, ds.last()));
        let at = (data_base(prev) + prev.data_seg_byte) as int;
        assert(at == data_position(target_sim, n));
        assert(data_fits(prev));
        assert forall|k: int| 0 <= k < ds.len() implies data_fits(
            #[trigger] put_all_data(init, ds.take(k)),
        ) by {
            if k < n {
                assert(front.take(k) =~= ds.take(k));
                assert(data_fits(put_all_data(init, front.take(k))));
            } else {
                assert(ds.take(k) =~= front);
            }
        }
        let w = data_bytes(ds.last(), target_sim);
        assert(m.arr == splice(prev.arr, at, w));
        assert forall|i: int| 0 <= i < ds.len() implies m.arr[#[trigger] data_position(target_sim, i)]
            == ds[i] by {
            if i < n {
                assert(front[i] == ds[i]);
                assert(prev.arr[data_position(target_sim, i)] == front[i]);
            }
        }
        assert forall|p: int|
            0 <= p < m.arr.len() && (forall|i: int|
                0 <= i < ds.len() ==> #[trigger] data_position(target_sim, i) != p) implies #[trigger] m.arr[p]
            == 0 by {
            assert(data_position(target_sim, n) != p);
            assert forall|i: int| 0 <= i < front.len() implies #[trigger] data_position(target_sim, i)
                != p by {
                assert(data_position(target_sim, i) != p);
            }
            assert(prev.arr[p] == 0);
        }
    }
}

impl NeanderMem {
    /// The state of a new image: zeros, with both positions at the start.
    pub open spec fn initial(target_sim: bool) -> MemView {
        MemView {
            arr: Seq::new((SIM_MEM_SIZE * stride(target_sim)) as nat, |i: int| 0u8),
            mem_size: SIM_MEM_SIZE as nat,
            code_seg_byte: 0,
            data_seg_byte: 0,
            target_sim,
        }
    }

    /// The number of bytes of the image: the machine's bytes, twice over in
    /// the simulator's format.
    pub fn full_size(&self) -> (n: usize)
        ensures
            n == SIM_MEM_SIZE * stride(self.target_sim),
    {
        if self.target_sim {
            SIM_MEM_SIZE * 2
        } else {
            SIM_MEM_SIZE
        }
    }

    /// The address where code starts.
    pub fn code_seg(&self) -> (a: usize)
        ensures
            a == 0,
    {
        0
    }

    /// The address where data starts: the middle of the memory.
    pub fn data_seg(&self) -> (a: usize)
        ensures
            a == self.mem_size / 2,
    {
        self.mem_size / 2
    }

    /// An image of zeros, for the simulator's format or for plain bytes.
    pub fn new(target_sim: bool) -> (m: NeanderMem)
        ensures
            m@ == NeanderMem::initial(target_sim),
    {
        let vec_size = if target_sim {
            SIM_MEM_SIZE * 2
        } else {
            SIM_MEM_SIZE
        };
        let arr = vec![0u8; vec_size];
        assert(arr@ =~= Seq::new((SIM_MEM_SIZE * stride(target_sim)) as nat, |i: int| 0u8));
        let m = NeanderMem { arr, mem_size: SIM_MEM_SIZE, code_seg_byte: 0, data_seg_byte: 0, target_sim };
        assert(m@ =~= NeanderMem::initial(target_sim));
        m
    }

    /// Whether `ins` can be written at the code position.
    pub fn fits_instruction(&self, ins: &Instruction) -> (b: bool)
        ensures
            b == instruction_fits(self@, *ins),
    {
        let op = ins.mnemonic.to_opcode() as u32;
        let d: u32 = match ins.destination {
            Some(d) => ((d as u32) * 4) % 256,
            None => 0,
        };
        let s: u32 = match ins.source {
            Some(s) => s as u32,
            None => 0,
        };
        let per: usize = if self.target_sim {
            2
        } else {
            1
        };
        let n: usize = match ins.addr {
            Some(_) => 2 * per,
            None => per,
        };
        assert(n == instruction_bytes(*ins, self.target_sim).len());
        op + d <= 255 && op + d + s <= 255 && n <= self.arr.len() && self.code_seg_byte
            <= self.arr.len() - n
    }

    /// Whether a data byte can be written at the data position.
    pub fn fits_data(&self) -> (b: bool)
        ensures
            b == data_fits(self@),
    {
        let base: usize = if self.target_sim {
            (self.mem_size / 2) * 2
        } else {
            self.mem_size / 2
        };
        let per: usize = if self.target_sim {
            2
        } else {
            1
        };
        let n = self.arr.len();
        base <= n && per <= n - base && self.data_seg_byte <= n - base - per
    }

    /// Writes an instruction at the code position and moves the position past it.
    #[verifier::spinoff_prover]
    #[verifier::rlimit(30)]
    pub fn write_instruction(&mut self, ins: Instruction)
        requires
            instruction_fits(old(self)@, ins),
        ensures
            final(self)@ == put_instruction(old(self)@, ins),
    {
        let ghost old_arr = self.arr@;
        let ghost bytes = instruction_bytes(ins, self.target_sim);
        assert(bytes.len() == stride(self.target_sim) * (if ins.addr is Some {
            2nat
        } else {
            1nat
        }));
        assert(self.code_seg_byte + bytes.len() <= self.arr.len());
        let code_seg = self.code_seg();
        let mut curr_byte = self.code_seg_byte;
        let padding = 0x00;

        self.arr.set(code_seg + curr_byte, ins.mnemonic.to_opcode());

        if let Some(dst) = ins.destination {
            let shifted: u8 = dst << 2;
            assert(shifted == (dst * 4) % 256) by (bit_vector)
                requires
                    shifted == dst << 2,
            ;
            let b = self.arr[code_seg + curr_byte] + shifted;
            self.arr.set(code_seg + curr_byte, b);
        }
        if let Some(src) = ins.source {
            let b = self.arr[code_seg + curr_byte] + src;
            self.arr.set(code_seg + curr_byte, b);
        }
        assert(self.arr@[curr_byte as int] == first_byte(ins));
        curr_byte += 1;

        if self.target_sim {
            self.arr.set(code_seg + curr_byte, padding);
            curr_byte += 1;
        }
        if let Some(addr) = ins.addr {
            self.arr.set(code_seg + curr_byte, addr);
            curr_byte += 1;
            if self.target_sim {
                self.arr.set(code_seg + curr_byte, padding);
                curr_byte += 1;
            }
        }
        assert(self.arr@ =~= splice(old_arr, old(self).code_seg_byte as int, bytes));
        self.code_seg_byte = curr_byte;
        assert(self@ =~= put_instruction(old(self)@, ins));
    }

    /// Writes a data byte at the data position (followed by a padding byte in
    /// the simulator's format) and moves the position past it.
    pub fn write_data(&mut self, data: u8)
        requires
            data_fits(old(self)@),
        ensures
            final(self)@ == put_data(old(self)@, data),
    {
        let ghost old_arr = self.arr@;
        let mut data_seg = self.data_seg();
        if self.target_sim {
            data_seg *= 2;
        }
        let mut curr_byte = self.data_seg_byte;
        let padding = 0x00;
        let n = self.arr.len();
        assert(data_seg == data_base(self@));
        assert(data_seg + curr_byte + stride(self.target_sim) <= n);

        self.arr.set(data_seg + curr_byte, data);
        curr_byte += 1;
        if self.target_sim {
            self.arr.set(data_seg + curr_byte, padding);
            curr_byte += 1;
        }
        assert(self.arr@ =~= splice(
            old_arr,
            (data_base(old(self)@) + old(self).data_seg_byte) as int,
            data_bytes(data, old(self).target_sim),
        ));
        self.data_seg_byte = curr_byte;
        assert(self@ =~= put_data(old(self)@, data));
    }

    /// Stores each immediate's value at its address, in order.
    pub fn write_reverse_data(&mut self, data: Vec<ImmediateAddressing>)
        requires
            forall|i: int|
                0 <= i < data.len() ==> #[trigger] data@[i].addr * stride(old(self).target_sim)
                    < old(self).arr.len(),
        ensures
            final(self).arr@ == store_all(old(self).arr@, data@, stride(old(self).target_sim)),
            final(self).code_seg_byte == old(self).code_seg_byte,
            final(self).data_seg_byte == old(self).data_seg_byte,
            final(self).mem_size == old(self).mem_size,
            final(self).target_sim == old(self).target_sim,
    {
        let addr_multiplier: usize = if self.target_sim {
            2
        } else {
            1
        };
        let mut k: usize = 0;
        assert(data@.take(0) =~= seq![]);
        while k < data.len()
            invariant
                k <= data.len(),
                addr_multiplier == stride(self.target_sim),
                self.arr.len() == old(self).arr.len(),
                self.target_sim == old(self).target_sim,
                self.code_seg_byte == old(self).code_seg_byte,
                self.data_seg_byte == old(self).data_seg_byte,
                self.mem_size == old(self).mem_size,
                forall|i: int|
                    0 <= i < data.len() ==> #[trigger] data@[i].addr * stride(old(self).target_sim)
                        < old(self).arr.len(),
                self.arr@ == store_all(old(self).arr@, data@.take(k as int), addr_multiplier as nat),
            decreases data.len() - k,
        {
            let i = &data[k];
            assert(data@[k as int].addr * stride(old(self).target_sim) < old(self).arr.len());
            self.arr.set(i.addr * addr_multiplier, i.value);
            assert(data@.take(k + 1).drop_last() =~= data@.take(k as int));
            k += 1;
        }
        assert(data@.take(k as int) =~= data@);
    }

    /// The bytes of the output file: in the simulator's format, a four-byte
    /// header (`0x03 'N' 'D' 'R'`) before the image.
    pub fn to_output_bytes(&self) -> (out: Vec<u8>)
        ensures
            out@ == if self.target_sim {
                seq![0x03u8, 0x4eu8, 0x44u8, 0x52u8] + self.arr@
            } else {
                self.arr@
            },
    {
        let mut out: Vec<u8> = Vec::new();
        if self.target_sim {
            out.push(0x03);
            out.push(0x4e);
            out.push(0x44);
            out.push(0x52);
        }
        let ghost start = out@;
        let mut k: usize = 0;
        while k < self.arr.len()
            invariant
                k <= self.arr.len(),
                out@ == start + self.arr@.take(k as int),
            decreases self.arr.len() - k,
        {
            out.push(self.arr[k]);
            k += 1;
            assert(out@ =~= start + self.arr@.take(k as int));
        }
        assert(self.arr@.take(k as int) =~= self.arr@);
        out
    }
}

impl Default for NeanderMem {
    fn default() -> (m: Self)
        ensures
            m@ == NeanderMem::initial(true),
    {
        Self::new(true)
    }
}

} // verus!
