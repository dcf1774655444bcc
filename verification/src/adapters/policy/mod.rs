pub mod academic;
pub mod strict;
