pub mod ball_walk;
