pub(crate) mod option;
