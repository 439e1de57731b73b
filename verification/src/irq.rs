use vstd::prelude::*;

verus! {

/// The bit of the Hazard3 `meinext` register that says no external interrupt is pending.
pub const NO_IRQ: u32 = 0x8000_0000;

/// An external interrupt that the firmware serves itself.
#[derive(Debug, Clone, Copy, PartialEq, Eq, Structural)]
pub enum IrqHandler {
    Timer0,
    Dma0,
    Pio0,
}

/// The interrupt numbers of the lines that the firmware serves, as the chip's
/// peripheral access crate numbers them.
#[derive(Debug, Clone, Copy, PartialEq, Eq, Structural)]
pub struct IrqLines {
    pub timer0: u16,
    pub dma0: u16,
    pub pio0: u16,
}

/// The pending interrupt that a read of `meinext` reports: none when its top bit is set,
/// else the number held in bits 2 and up, cut to 16 bits.
pub open spec fn pending_irq(csr: u32) -> Option<u16> {
    if csr >= NO_IRQ {
        None
    } else {
        Some(((csr / 4) % 0x1_0000) as u16)
    }
}

/// A read of `meinext` reports no interrupt exactly when its top bit is set, and otherwise
/// the interrupt whose number stands in bits 2 to 17.
pub proof fn lemma_pending_irq_bits(csr: u32)
    ensures
        pending_irq(csr) is None <==> csr & 0x8000_0000u32 != 0,
        pending_irq(csr) is Some ==> pending_irq(csr)->0 as u32 == (csr >> 2u32) & 0xffffu32,
{
    assert(csr & 0x8000_0000u32 != 0 <==> csr >= 0x8000_0000u32) by (bit_vector);
    assert(((csr >> 2u32) & 0xffffu32) as int == (csr / 4) % 0x1_0000) by (bit_vector);
}

/// Decodes a value read from the Hazard3 `meinext` register.
pub fn xh3_next_irq_no(csr_rdata: u32) -> (r: Option<u16>)
    ensures
        r == pending_irq(csr_rdata),
{
    if (csr_rdata & NO_IRQ) != 0 {
        assert(csr_rdata & 0x8000_0000u32 != 0 ==> csr_rdata >= 0x8000_0000u32) by (bit_vector);
        None
    } else {
        assert(csr_rdata & 0x8000_0000u32 == 0 ==> csr_rdata < 0x8000_0000u32) by (bit_vector);
        let n = (csr_rdata >> 2) as u16;
        assert(((csr_rdata >> 2) as u16) as int == (csr_rdata / 4) % 0x1_0000) by (bit_vector);
        Some(n)
    }
}

/// The handler of an interrupt number: the timer, the DMA or the PIO line, checked in that
/// order, or none for any other number.
pub open spec fn handler_for(irq_no: u16, lines: IrqLines) -> Option<IrqHandler> {
    if irq_no == lines.timer0 {
        Some(IrqHandler::Timer0)
    } else if irq_no == lines.dma0 {
        Some(IrqHandler::Dma0)
    } else if irq_no == lines.pio0 {
        Some(IrqHandler::Pio0)
    } else {
        None
    }
}

/// The interrupt line that a handler serves.
pub open spec fn line_of(handler: IrqHandler, lines: IrqLines) -> u16 {
    match handler {
        IrqHandler::Timer0 => lines.timer0,
        IrqHandler::Dma0 => lines.dma0,
        IrqHandler::Pio0 => lines.pio0,
    }
}

/// A handler is picked only for its own line: whatever handler an interrupt number gets
/// serves exactly that number, a number that is none of the three lines gets no handler,
/// and each line gets a handler (the timer's first where lines share a number).
pub proof fn lemma_handler_own_line(irq_no: u16, lines: IrqLines)
    ensures
        handler_for(irq_no, lines) == Some(IrqHandler::Timer0) ==> irq_no == lines.timer0,
        handler_for(irq_no, lines) == Some(IrqHandler::Dma0) ==> irq_no == lines.dma0,
        handler_for(irq_no, lines) == Some(IrqHandler::Pio0) ==> irq_no == lines.pio0,
        (irq_no != lines.timer0 && irq_no != lines.dma0 && irq_no != lines.pio0) <==> handler_for(irq_no, lines) is None,
        irq_no == lines.timer0 ==> handler_for(irq_no, lines) == Some(IrqHandler::Timer0),
{
}

/// One turn of the interrupt loop calls a handler only when `meinext` reports a pending
/// interrupt, and then only the handler of the line that it reports.
pub proof fn lemma_step_own_line(csr_rdata: u32, lines: IrqLines, handler: IrqHandler)
    requires
        match pending_irq(csr_rdata) {
            Some(n) => handler_for(n, lines),
            None => None,
        } == Some(handler),
    ensures
        csr_rdata < NO_IRQ,
        line_of(handler, lines) as int == (csr_rdata / 4) % 0x1_0000,
{
}

/// Picks the handler of an external interrupt; `None` for a line the firmware does not
/// serve.
pub fn dispatch_external_irq(irq_no: u16, lines: &IrqLines) -> (r: Option<IrqHandler>)
    ensures
        r == handler_for(irq_no, *lines),
{
    if irq_no == lines.timer0 {
        Some(IrqHandler::Timer0)
    } else if irq_no == lines.dma0 {
        Some(IrqHandler::Dma0)
    } else if irq_no == lines.pio0 {
        Some(IrqHandler::Pio0)
    } else {
        None
    }
}

/// One turn of the machine external interrupt loop: from a read of `meinext`, the handler
/// to call before reading again, or `None` when the loop returns (no interrupt pending,
/// or one that the firmware does not serve).
pub fn machine_external_step(csr_rdata: u32, lines: &IrqLines) -> (r: Option<IrqHandler>)
    ensures
        r == match pending_irq(csr_rdata) {
            Some(n) => handler_for(n, *lines),
            None => None,
        },
{
    match xh3_next_irq_no(csr_rdata) {
        Some(n) => dispatch_external_irq(n, lines),
        None => None,
    }
}

} // verus!
