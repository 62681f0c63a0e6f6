use vstd::prelude::*;

verus! {

/// Control record for the on-chip DAC: a 12-bit output code and an enable
/// flag. The floating-point scale accessors live with the unverified I/O
/// layer; here the record carries the raw code.
#[allow(non_camel_case_types)]
#[derive(Copy, Clone)]
pub struct CPU_DAC {
    pub out: u32,  // making this u16 breaks the SPI interrupt loop
    pub en: bool,
}

impl CPU_DAC {
    pub fn set_en(&mut self, enable: bool) -> (r: Result<(), &'static str>)
        ensures
            r is Ok,
            final(self).en == enable,
            final(self).out == old(self).out,
    {
        self.en = enable;
        Ok(())
    }

    #[allow(unused_variables)]
    pub fn get_en(&mut self, enable: bool) -> (r: Result<bool, &'static str>)
        ensures
            r == Ok::<bool, &'static str>(old(self).en),
            *final(self) == *old(self),
    {
        Ok(self.en)
    }
}

} // verus!
