pub mod caviar_offset;
pub mod offset;
pub mod slotted;
