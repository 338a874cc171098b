/*!
A plotting core that works on exact decimal fixed-point numbers.

Data values, axis ranges and tick positions are all multiples of
`10^-15`, stored as scaled integers, so every comparison and every
tick computation is exact: there are no binary floating-point
artifacts to correct for.

The pipeline runs from data to text: a *representation* owns the data
of one chart ([`repr`]), a *view* collects representations with the
extent to plot ([`view`]), the view builds its two axes — the one
place ticks are planned ([`axis`]) — and the character-grid engine
([`text_render`]) draws faces, axis lines, ticks and labels, merging
the blocks with its overlay primitive.
*/

pub mod axis;
pub mod errors;
pub mod fixed;
pub mod grid;
pub mod repr;
pub mod style;
pub mod text_render;
pub mod utils;
pub mod view;
